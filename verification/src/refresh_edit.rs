//! Changes to the refresh-rate settings of the rule file. Everything else in
//! the file stays as it is.
use vstd::prelude::*;

use crate::config;
use crate::cpuset::CpuTopology;
use crate::grammar;
use crate::layout;
use crate::number;
use crate::refresh_lines;
use crate::refresh_lines::RefreshTriple;
use crate::text;

verus! {

broadcast use vstd::string::group_string_axioms;

/// The key of a line, comments and all: what stands before its first `=`.
pub open spec fn raw_key(line: Seq<char>) -> Option<Seq<char>> {
    match grammar::key_value(text::trimmed(line)) {
        Some((k, v)) => Some(k),
        None => None,
    }
}

/// The lines of a text; no text has none.
pub open spec fn lines_in(content: Option<&str>) -> Seq<Seq<char>> {
    match content {
        Some(t) => text::line_seq(t@),
        None => seq![],
    }
}

/// Some line has the key.
pub open spec fn has_key(lines: Seq<Seq<char>>, key: Seq<char>) -> bool {
    exists|i: int| 0 <= i < lines.len() && raw_key(#[trigger] lines[i]) == Some(key)
}

/// A global setting as a line.
pub open spec fn global_line(key: Seq<char>, value: Seq<char>) -> Seq<char> {
    key + seq!['='] + value
}

/// The three global settings as text: timeout, active and idle rate.
#[verifier::ext_equal]
pub ghost struct GlobalTexts {
    pub timeout: Seq<char>,
    pub active: Seq<char>,
    pub idle: Seq<char>,
}

/// A line after the global settings have been changed.
pub open spec fn edited(line: Seq<char>, g: GlobalTexts) -> Seq<char> {
    match raw_key(line) {
        Some(k) => if k == "refresh_timeout"@ {
            global_line("refresh_timeout"@, g.timeout)
        } else if k == "refresh_active"@ {
            global_line("refresh_active"@, g.active)
        } else if k == "refresh_idle"@ {
            global_line("refresh_idle"@, g.idle)
        } else {
            line
        },
        None => line,
    }
}

/// The line of a setting where the file has none.
pub open spec fn if_missing(lines: Seq<Seq<char>>, key: Seq<char>, value: Seq<char>) -> Seq<
    Seq<char>,
> {
    if has_key(lines, key) {
        seq![]
    } else {
        seq![global_line(key, value)]
    }
}

/// The lines that are missing, in the order in which they are added.
pub open spec fn missing(lines: Seq<Seq<char>>, g: GlobalTexts) -> Seq<Seq<char>> {
    if_missing(lines, "refresh_timeout"@, g.timeout) + if_missing(
        lines,
        "refresh_active"@,
        g.active,
    ) + if_missing(lines, "refresh_idle"@, g.idle)
}

/// The lines after the global settings have been changed.
pub open spec fn with_globals(lines: Seq<Seq<char>>, g: GlobalTexts) -> Seq<Seq<char>> {
    lines.map_values(|l: Seq<char>| edited(l, g)) + missing(lines, g)
}

/// The key of a line.
fn line_key<'a>(line: &'a str) -> (r: Option<&'a str>)
    ensures
        match r {
            Some(k) => raw_key(line@) == Some(k@),
            None => raw_key(line@) is None,
        },
{
    match text::split_once(text::trim(line), '=') {
        Some((k, _)) => Some(text::trim(k)),
        None => None,
    }
}

/// Whether a line has a given key.
fn key_is(line: &str, key: &str) -> (r: bool)
    ensures
        r == (raw_key(line@) == Some(key@)),
{
    match line_key(line) {
        Some(k) => text::same(k, key),
        None => false,
    }
}

/// Whether some line has a given key.
fn any_key(lines: &Vec<&str>, key: &str) -> (r: bool)
    ensures
        r == has_key(text::views(lines@), key@),
{
    let ghost all = text::views(lines@);
    let mut i: usize = 0;
    while i < lines.len()
        invariant
            i <= lines.len(),
            all == text::views(lines@),
            forall|j: int| 0 <= j < i ==> raw_key(#[trigger] all[j]) != Some(key@),
        decreases lines.len() - i,
    {
        assert(all[i as int] == lines@[i as int]@);
        if key_is(lines[i], key) {
            assert(raw_key(all[i as int]) == Some(key@));
            return true;
        }
        i += 1;
    }
    false
}

/// A setting as a line.
fn make_line(key: &str, value: &str) -> (r: String)
    ensures
        r@ == global_line(key@, value@),
{
    let mut s: String = key.to_owned();
    s.push('=');
    s.append(value);
    assert(s@ =~= global_line(key@, value@));
    s
}

/// The lines of a text; no text has none.
fn split_lines<'a>(content: Option<&'a str>) -> (r: Vec<&'a str>)
    ensures
        text::views(r@) == lines_in(content),
{
    match content {
        Some(t) => text::lines(t),
        None => {
            let r: Vec<&'a str> = Vec::new();
            assert(text::views(r@) =~= Seq::<Seq<char>>::empty());
            r
        },
    }
}

/// Adds the line of a setting where the file has none.
fn push_missing(out: &mut Vec<String>, lines: &Vec<&str>, key: &str, value: &str)
    ensures
        text::owned(final(out)@) == text::owned(old(out)@) + if_missing(
            text::views(lines@),
            key@,
            value@,
        ),
{
    let ghost before = text::owned(out@);
    if !any_key(lines, key) {
        out.push(make_line(key, value));
        assert(text::owned(out@) =~= before.push(global_line(key@, value@)));
    }
    assert(text::owned(out@) =~= before + if_missing(text::views(lines@), key@, value@));
}

/// The text of the rule file with other global settings.
pub open spec fn set_text(
    lines: Seq<Seq<char>>,
    timeout: int,
    active: Seq<char>,
    idle: Seq<char>,
) -> Seq<char> {
    text::terminated(
        with_globals(lines, GlobalTexts { timeout: number::dec_int(timeout), active, idle }),
    )
}

/// The text of the rule file with other global settings: their lines are
/// replaced, and added at the end where there are none.
pub fn refresh_set_config(content: Option<&str>, timeout: i32, active: &str, idle: &str) -> (r:
    String)
    ensures
        r@ == set_text(lines_in(content), timeout as int, active@, idle@),
{
    let mut tt = String::new();
    number::push_i32(&mut tt, timeout);
    assert(tt@ =~= number::dec_int(timeout as int));
    let ghost g = GlobalTexts {
        timeout: number::dec_int(timeout as int),
        active: active@,
        idle: idle@,
    };
    let lines = split_lines(content);
    let ghost all = lines_in(content);
    let ghost f = |l: Seq<char>| edited(l, g);
    let mut out: Vec<String> = Vec::new();
    let mut i: usize = 0;
    proof {
        reveal_strlit("refresh_timeout");
        reveal_strlit("refresh_active");
        reveal_strlit("refresh_idle");
        assert(text::owned(out@) =~= all.take(0).map_values(f));
    }
    while i < lines.len()
        invariant
            i <= lines.len(),
            text::views(lines@) == all,
            f == (|l: Seq<char>| edited(l, g)),
            g == (GlobalTexts { timeout: tt@, active: active@, idle: idle@ }),
            text::owned(out@) == all.take(i as int).map_values(f),
        decreases lines.len() - i,
    {
        let line = lines[i];
        assert(line@ == all[i as int]);
        let next: String = if key_is(line, "refresh_timeout") {
            make_line("refresh_timeout", tt.as_str())
        } else if key_is(line, "refresh_active") {
            make_line("refresh_active", active)
        } else if key_is(line, "refresh_idle") {
            make_line("refresh_idle", idle)
        } else {
            line.to_owned()
        };
        assert(next@ == edited(line@, g));
        let ghost before = text::owned(out@);
        out.push(next);
        assert(text::owned(out@) =~= before.push(edited(line@, g)));
        i += 1;
        assert(all.take(i as int).map_values(f) =~= all.take(i - 1).map_values(f).push(
            edited(all[i - 1], g),
        ));
    }
    assert(all.take(all.len() as int) =~= all);
    push_missing(&mut out, &lines, "refresh_timeout", tt.as_str());
    push_missing(&mut out, &lines, "refresh_active", active);
    push_missing(&mut out, &lines, "refresh_idle", idle);
    assert(text::owned(out@) =~= with_globals(all, g));
    proof {
        lemma_with_globals_nonempty(all, g);
        text::lemma_joined_terminated(with_globals(all, g));
    }
    layout::file_text(&out)
}

proof fn lemma_with_globals_nonempty(lines: Seq<Seq<char>>, g: GlobalTexts)
    ensures
        with_globals(lines, g).len() > 0,
{
    if lines.len() == 0 {
        assert(!has_key(lines, "refresh_timeout"@));
    }
}

/// The text of the rule file with default rates in front, for those settings
/// that the file does not have; nothing where it has all. The defaults come in
/// the order active, idle, timeout.
pub open spec fn with_defaults(lines: Seq<Seq<char>>, active: int, idle: int) -> Seq<Seq<char>> {
    if_missing(lines, "refresh_active"@, number::dec_int(active)) + if_missing(
        lines,
        "refresh_idle"@,
        number::dec_int(idle),
    ) + if_missing(lines, "refresh_timeout"@, "30"@)
}

/// The lines of the rule file with settings for an application.
pub open spec fn added_lines(
    lines: Seq<Seq<char>>,
    pkg: Seq<char>,
    timeout: int,
    active: Seq<char>,
    idle: Seq<char>,
) -> Seq<Seq<char>> {
    with_app(lines, pkg, app_line(pkg, timeout, active, idle))
}

/// The lines of the rule file without settings for an application.
pub open spec fn remaining_lines(lines: Seq<Seq<char>>, pkg: Seq<char>) -> Seq<Seq<char>> {
    lines.filter(|l: Seq<char>| !is_hit(l, pkg))
}

/// The text of the rule file once the default rates have been put in front;
/// nothing where it has all settings.
pub open spec fn default_text(lines: Seq<Seq<char>>, active: int, idle: int) -> Option<Seq<char>> {
    let pre = with_defaults(lines, active, idle);
    if pre.len() > 0 {
        Some(text::terminated(pre + lines))
    } else {
        None
    }
}

/// Puts default rates in front of the rule file where it has none.
pub fn write_global_refresh_defaults(content: Option<&str>, active: i32, idle: i32) -> (r: Option<
    String,
>)
    ensures
        match r {
            Some(t) => default_text(lines_in(content), active as int, idle as int) == Some(t@),
            None => default_text(lines_in(content), active as int, idle as int) is None,
        },
{
    let lines = split_lines(content);
    let ghost all = lines_in(content);
    let ghost pre = with_defaults(all, active as int, idle as int);
    let mut a = String::new();
    number::push_i32(&mut a, active);
    assert(a@ =~= number::dec_int(active as int));
    let mut b = String::new();
    number::push_i32(&mut b, idle);
    assert(b@ =~= number::dec_int(idle as int));
    let mut out: Vec<String> = Vec::new();
    assert(text::owned(out@) =~= Seq::<Seq<char>>::empty());
    push_missing(&mut out, &lines, "refresh_active", a.as_str());
    push_missing(&mut out, &lines, "refresh_idle", b.as_str());
    push_missing(&mut out, &lines, "refresh_timeout", "30");
    assert(text::owned(out@) =~= pre);
    if out.len() == 0 {
        assert(pre.len() == 0);
        return None;
    }
    assert(pre.len() > 0) by {
        assert(text::owned(out@).len() == out@.len());
    }
    let mut i: usize = 0;
    assert(pre + all.take(0) =~= pre);
    while i < lines.len()
        invariant
            i <= lines.len(),
            text::views(lines@) == all,
            text::owned(out@) == pre + all.take(i as int),
        decreases lines.len() - i,
    {
        let ghost before = text::owned(out@);
        assert(lines@[i as int]@ == all[i as int]);
        out.push(lines[i].to_owned());
        assert(text::owned(out@) =~= before.push(all[i as int]));
        i += 1;
        assert(pre + all.take(i as int) =~= (pre + all.take(i - 1)).push(all[i - 1]));
    }
    assert(all.take(all.len() as int) =~= all);
    proof {
        text::lemma_joined_terminated(pre + all);
    }
    Some(layout::file_text(&out))
}

/// The line of an application with its own settings.
pub open spec fn app_line(pkg: Seq<char>, timeout: int, active: Seq<char>, idle: Seq<char>) -> Seq<
    char,
> {
    pkg + "=refresh-"@ + number::dec_int(timeout) + seq!['-'] + active + seq!['-'] + idle
}

/// A line with the settings of `pkg`: in the current form, or in one of the two
/// older forms with commas.
pub open spec fn is_setting_of(line: Seq<char>, pkg: Seq<char>) -> bool {
    let t = text::trimmed(line);
    let k = text::first(t, '=') as int;
    let fs = text::pieces(t, ',');
    if k < t.len() {
        text::trimmed(t.take(k)) == pkg && text::starts(t.skip(k + 1), "refresh-"@)
    } else {
        ||| fs.len() == 5 && text::trimmed(fs[0]) == "refresh_app"@ && text::trimmed(fs[1]) == pkg
        ||| fs.len() == 4 && text::trimmed(fs[0]) == pkg
    }
}

/// A line that says nothing: blank, or a comment that starts with `#`.
pub open spec fn is_idle_line(line: Seq<char>) -> bool {
    let t = text::trimmed(line);
    t.len() == 0 || t[0] == '#'
}

/// The line is the one to be replaced or removed for `pkg`.
pub open spec fn is_hit(line: Seq<char>, pkg: Seq<char>) -> bool {
    !is_idle_line(line) && is_setting_of(line, pkg)
}

/// The first line from `i` on that is hit; their number where there is none.
pub open spec fn first_hit(lines: Seq<Seq<char>>, pkg: Seq<char>, i: int) -> int
    decreases lines.len() - i,
{
    if i >= lines.len() {
        lines.len() as int
    } else if is_hit(lines[i], pkg) {
        i
    } else {
        first_hit(lines, pkg, i + 1)
    }
}

/// The lines with those settings for `pkg`: in place of the first line for it,
/// or at the end.
pub open spec fn with_app(lines: Seq<Seq<char>>, pkg: Seq<char>, line: Seq<char>) -> Seq<Seq<char>> {
    let k = first_hit(lines, pkg, 0);
    if k < lines.len() {
        lines.update(k, line)
    } else {
        lines.push(line)
    }
}

/// Whether a line has the settings of a package.
fn setting_of(line: &str, pkg: &str) -> (r: bool)
    ensures
        r == is_setting_of(line@, pkg@),
{
    let t = text::trim(line);
    if let Some((k, v)) = text::split_once(t, '=') {
        return text::same(text::trim(k), pkg) && text::starts_with(v, "refresh-");
    }
    let fields = text::split(t, ',');
    let ghost fs = text::pieces(t@, ',');
    assert(fields@[0]@ == fs[0]);
    if fields.len() == 5 {
        assert(fields@[1]@ == fs[1]);
        return text::same(text::trim(fields[0]), "refresh_app") && text::same(
            text::trim(fields[1]),
            pkg,
        );
    }
    fields.len() == 4 && text::same(text::trim(fields[0]), pkg)
}

/// Whether a line is the one to be replaced or removed.
fn hit(line: &str, pkg: &str) -> (r: bool)
    ensures
        r == is_hit(line@, pkg@),
{
    let t = text::trim(line);
    if t.is_empty() || t.get_char(0) == '#' {
        return false;
    }
    setting_of(line, pkg)
}

/// Writes the line of an application.
fn make_app_line(pkg: &str, timeout: i32, active: &str, idle: &str) -> (r: String)
    ensures
        r@ == app_line(pkg@, timeout as int, active@, idle@),
{
    let mut s: String = pkg.to_owned();
    s.append("=refresh-");
    number::push_i32(&mut s, timeout);
    s.push('-');
    s.append(active);
    s.push('-');
    s.append(idle);
    assert(s@ =~= app_line(pkg@, timeout as int, active@, idle@));
    s
}

/// The lines of the rule file with settings for an application.
pub fn refresh_add_app(
    content: Option<&str>,
    pkg: &str,
    timeout: i32,
    active: &str,
    idle: &str,
) -> (r: Vec<String>)
    ensures
        text::owned(r@) == added_lines(lines_in(content), pkg@, timeout as int, active@, idle@),
{
    let lines = split_lines(content);
    let ghost all = lines_in(content);
    let ghost new_line = app_line(pkg@, timeout as int, active@, idle@);
    let mut out: Vec<String> = Vec::new();
    let mut found: bool = false;
    let mut i: usize = 0;
    assert(text::owned(out@) =~= all.take(0));
    while i < lines.len()
        invariant
            i <= lines.len(),
            text::views(lines@) == all,
            new_line == app_line(pkg@, timeout as int, active@, idle@),
            !found ==> first_hit(all, pkg@, 0) == first_hit(all, pkg@, i as int) && text::owned(
                out@,
            ) == all.take(i as int),
            found ==> first_hit(all, pkg@, 0) < i && 0 <= first_hit(all, pkg@, 0) && text::owned(
                out@,
            ) == all.take(i as int).update(first_hit(all, pkg@, 0), new_line),
        decreases lines.len() - i,
    {
        let line = lines[i];
        assert(line@ == all[i as int]);
        let ghost before = text::owned(out@);
        if !found && hit(line, pkg) {
            out.push(make_app_line(pkg, timeout, active, idle));
            found = true;
            assert(text::owned(out@) =~= before.push(new_line));
            assert(first_hit(all, pkg@, 0) == i);
            assert(text::owned(out@) =~= all.take(i + 1).update(i as int, new_line));
        } else {
            out.push(line.to_owned());
            assert(text::owned(out@) =~= before.push(all[i as int]));
            if found {
                assert(text::owned(out@) =~= all.take(i + 1).update(
                    first_hit(all, pkg@, 0),
                    new_line,
                ));
            } else {
                assert(text::owned(out@) =~= all.take(i + 1));
            }
        }
        i += 1;
    }
    assert(all.take(all.len() as int) =~= all);
    if !found {
        let ghost before = text::owned(out@);
        out.push(make_app_line(pkg, timeout, active, idle));
        assert(text::owned(out@) =~= before.push(new_line));
    }
    out
}

/// The lines of the rule file without settings for an application; nothing
/// where there is no file.
pub fn refresh_del_app(content: Option<&str>, pkg: &str) -> (r: Option<Vec<String>>)
    ensures
        match (content, r) {
            (Some(t), Some(v)) => text::owned(v@) == remaining_lines(text::line_seq(t@), pkg@),
            (None, None) => true,
            _ => false,
        },
{
    match content {
        Some(t) => {
            let lines = text::lines(t);
            let ghost all = text::line_seq(t@);
            let ghost f = |l: Seq<char>| !is_hit(l, pkg@);
            let mut out: Vec<String> = Vec::new();
            let mut i: usize = 0;
            proof {
                reveal(Seq::filter);
                assert(text::owned(out@) =~= all.take(0).filter(f));
            }
            while i < lines.len()
                invariant
                    i <= lines.len(),
                    text::views(lines@) == all,
                    f == (|l: Seq<char>| !is_hit(l, pkg@)),
                    text::owned(out@) == all.take(i as int).filter(f),
                decreases lines.len() - i,
            {
                let line = lines[i];
                assert(line@ == all[i as int]);
                proof {
                    reveal(Seq::filter);
                    assert(all.take(i + 1).drop_last() =~= all.take(i as int));
                }
                let ghost before = text::owned(out@);
                if !hit(line, pkg) {
                    out.push(line.to_owned());
                    assert(text::owned(out@) =~= before.push(all[i as int]));
                }
                i += 1;
            }
            assert(all.take(all.len() as int) =~= all);
            Some(out)
        },
        None => None,
    }
}

/// A key that no comment can hide or forge.
pub open spec fn is_plain_key(k: Seq<char>) -> bool {
    k.len() > 0 && !k.contains('#') && !k.contains('/') && !k.contains('=') && text::trimmed(k) == k
}

pub(crate) proof fn lemma_global_keys()
    ensures
        is_plain_key("refresh_timeout"@),
        is_plain_key("refresh_active"@),
        is_plain_key("refresh_idle"@),
        has_no_space("refresh_timeout"@),
        has_no_space("refresh_active"@),
        has_no_space("refresh_idle"@),
        "refresh_timeout"@ != "refresh_active"@,
        "refresh_timeout"@ != "refresh_idle"@,
        "refresh_active"@ != "refresh_idle"@,
{
    reveal_strlit("refresh_timeout");
    reveal_strlit("refresh_active");
    reveal_strlit("refresh_idle");
    text::lemma_trimmed_id("refresh_timeout"@);
    text::lemma_trimmed_id("refresh_active"@);
    text::lemma_trimmed_id("refresh_idle"@);
    assert("refresh_timeout"@.len() == 15);
    assert("refresh_active"@.len() == 14);
    assert("refresh_idle"@.len() == 12);
}

/// The text holds no white space.
pub open spec fn has_no_space(s: Seq<char>) -> bool {
    forall|i: int| 0 <= i < s.len() ==> !text::is_space(#[trigger] s[i])
}

proof fn lemma_comment_found(s: Seq<char>, i: int)
    requires
        0 <= i <= s.len(),
    ensures
        i <= grammar::comment_from(s, i) <= s.len(),
        grammar::comment_from(s, i) < s.len() ==> grammar::comment_here(
            s,
            grammar::comment_from(s, i),
        ),
        forall|j: int|
            i <= j < grammar::comment_from(s, i) ==> !#[trigger] grammar::comment_here(s, j),
    decreases s.len() - i,
{
    if i < s.len() && !grammar::comment_here(s, i) {
        lemma_comment_found(s, i + 1);
    }
}

/// The key of a setting is the key of its line: comments stand behind it.
proof fn lemma_key(line: Seq<char>, key: Seq<char>)
    requires
        is_plain_key(key),
    ensures
        raw_key(line) == Some(key) <==> (refresh_lines::setting(line) matches Some((k, v)) && k
            == key),
{
    let c = grammar::comment_from(line, 0);
    lemma_comment_found(line, 0);
    text::lemma_key_of_trimmed(line, '=');
    text::lemma_first(text::trimmed(line), '=');
    text::lemma_first(line, '=');
    if c < line.len() {
        let x = line.take(c);
        text::lemma_trimmed_of_trimmed_end(x);
        text::lemma_key_of_trimmed(x, '=');
        text::lemma_first(x, '=');
        text::lemma_first(text::trimmed(x), '=');
        assert(text::trimmed(grammar::uncommented(line)) == text::trimmed(x));
        let e = text::first(line, '=') as int;
        if x.contains('=') {
            let e2 = text::first(x, '=') as int;
            assert(line[e2] == '=');
            assert forall|j: int| 0 <= j < e2 implies line[j] != '=' by {
                assert(x[j] == line[j]);
            }
            text::lemma_first_at(line, '=', e2);
            assert(x.take(e2) =~= line.take(e2));
        } else if line.contains('=') {
            if e < c {
                assert(x[e] == '=');
            }
            let h = line.skip(c);
            assert(h[0] == line[c]);
            assert(e > c);
            let y = line.take(e);
            assert(y[c] == line[c]);
            text::lemma_trimmed_keeps(y, c);
            assert(raw_key(line) == Some(text::trimmed(y)));
        }
    }
}

/// A line made of a plain key and a value has that key.
proof fn lemma_made_key(key: Seq<char>, value: Seq<char>)
    requires
        is_plain_key(key),
    ensures
        raw_key(global_line(key, value)) == Some(key),
{
    let l = global_line(key, value);
    assert forall|j: int| 0 <= j < key.len() implies l[j] != '=' by {
        assert(l[j] == key[j]);
    }
    assert(l[key.len() as int] == '=');
    text::lemma_first_at(l, '=', key.len() as int);
    text::lemma_key_of_trimmed(l, '=');
    text::lemma_first(text::trimmed(l), '=');
    text::lemma_first(l, '=');
    assert(l.take(key.len() as int) =~= key);
}

/// A line without white space is read as it stands.
pub(crate) proof fn lemma_made_setting(key: Seq<char>, value: Seq<char>)
    requires
        is_plain_key(key),
        has_no_space(key),
        has_no_space(value),
    ensures
        refresh_lines::setting(global_line(key, value)) == Some((key, value)),
        !global_line(key, value).contains('\n'),
        !grammar::is_blank_or_comment(global_line(key, value)),
{
    let l = global_line(key, value);
    assert forall|i: int| 0 <= i < l.len() implies !text::is_space(#[trigger] l[i]) by {
        if i < key.len() {
            assert(l[i] == key[i]);
        } else if i > key.len() {
            assert(l[i] == value[i - key.len() - 1]);
        }
    }
    lemma_comment_found(l, 0);
    let c = grammar::comment_from(l, 0);
    if c < l.len() {
        assert(!text::is_space(l[c - 1]));
    }
    assert(!text::is_space(l[0]));
    assert(!text::is_space(l[l.len() - 1]));
    text::lemma_trimmed_id(l);
    if value.len() > 0 {
        assert(!text::is_space(value[0]));
        assert(!text::is_space(value[value.len() - 1]));
    }
    text::lemma_trimmed_id(value);
    assert forall|j: int| 0 <= j < key.len() implies l[j] != '=' by {
        assert(l[j] == key[j]);
    }
    assert(l[key.len() as int] == '=');
    text::lemma_first_at(l, '=', key.len() as int);
    assert(l.take(key.len() as int) =~= key);
    assert(l.skip(key.len() as int + 1) =~= value);
    assert(l[0] == key[0]);
    assert(key.contains(key[0]));
    if l.contains('\n') {
        let j = l.index_of('\n');
        assert(text::is_space(l[j]));
    }
}

/// A carriage return at the end of a line makes no difference to its setting.
proof fn lemma_cr_setting(l: Seq<char>)
    ensures
        refresh_lines::setting(text::without_cr(l)) == refresh_lines::setting(l),
        text::trimmed(text::without_cr(l)) == text::trimmed(l),
{
    if l.len() > 0 && l.last() == '\r' {
        let x = l.drop_last();
        let n = x.len() as int;
        assert(x =~= l.take(n));
        assert forall|j: int| n <= j < l.len() implies text::is_space(#[trigger] l[j]) by {}
        text::lemma_trimmed_drop_end(l, n);
        lemma_comment_found(x, 0);
        lemma_comment_found(l, 0);
        assert forall|i: int| 0 <= i < n implies grammar::comment_here(x, i)
            == grammar::comment_here(l, i) by {
            let a = x.skip(i);
            let b = l.skip(i);
            assert(a[0] == b[0]);
            if i + 1 < n {
                assert(a[1] == b[1]);
            } else {
                assert(b[1] == '\r');
            }
        }
        assert(!grammar::comment_here(l, n)) by {
            assert(l.skip(n)[0] == '\r');
        }
        let cx = grammar::comment_from(x, 0);
        let cl = grammar::comment_from(l, 0);
        if cx < n {
            assert(grammar::comment_here(l, cx));
            if cl < cx {
                assert(grammar::comment_here(l, cl));
                assert(!grammar::comment_here(x, cl));
            }
            if cl > cx {
                assert(!grammar::comment_here(l, cx));
            }
            assert(x.take(cx) =~= l.take(cx));
        } else {
            if cl < l.len() {
                assert(grammar::comment_here(l, cl));
                if cl < n {
                    assert(!grammar::comment_here(x, cl));
                }
            }
        }
    }
}

/// Reading lines without their final carriage returns makes no difference.
proof fn lemma_cr_refresh(lines: Seq<Seq<char>>, n: nat)
    requires
        n <= lines.len(),
    ensures
        refresh_lines::refresh_after(lines.map_values(|l: Seq<char>| text::without_cr(l)), n)
            == refresh_lines::refresh_after(lines, n),
    decreases n,
{
    if n > 0 {
        lemma_cr_refresh(lines, (n - 1) as nat);
        lemma_cr_setting(lines[n - 1]);
    }
}

/// Global settings: what the three keys are set to.
spec fn value_of(g: GlobalTexts, key: Seq<char>) -> Seq<char> {
    if key == "refresh_timeout"@ {
        g.timeout
    } else if key == "refresh_active"@ {
        g.active
    } else {
        g.idle
    }
}

/// Every line with a global key sets it to the wanted value.
spec fn all_set(lines: Seq<Seq<char>>, g: GlobalTexts) -> bool {
    forall|i: int|
        0 <= i < lines.len() ==> (raw_key(#[trigger] lines[i]) matches Some(k) ==> (
        refresh_lines::is_global_key(k) ==> lines[i] == global_line(k, value_of(g, k))))
}

proof fn lemma_with_globals_set(lines: Seq<Seq<char>>, g: GlobalTexts)
    ensures
        all_set(with_globals(lines, g), g),
        has_key(with_globals(lines, g), "refresh_timeout"@),
        has_key(with_globals(lines, g), "refresh_active"@),
        has_key(with_globals(lines, g), "refresh_idle"@),
{
    lemma_global_keys();
    lemma_made_key("refresh_timeout"@, g.timeout);
    lemma_made_key("refresh_active"@, g.active);
    lemma_made_key("refresh_idle"@, g.idle);
    let all = with_globals(lines, g);
    let extra = missing(lines, g);
    let n = lines.len() as int;
    let lt = global_line("refresh_timeout"@, g.timeout);
    let la = global_line("refresh_active"@, g.active);
    let li = global_line("refresh_idle"@, g.idle);
    assert forall|i: int| 0 <= i < all.len() implies (raw_key(#[trigger] all[i]) matches Some(k)
        ==> (refresh_lines::is_global_key(k) ==> all[i] == global_line(k, value_of(g, k)))) by {
        if i < n {
            assert(all[i] == edited(lines[i], g));
        } else {
            assert(all[i] == extra[i - n]);
            assert(extra[i - n] == lt || extra[i - n] == la || extra[i - n] == li);
        }
    }
    lemma_key_kept(lines, g, "refresh_timeout"@, 0);
    lemma_key_kept(lines, g, "refresh_active"@, if_missing(lines, "refresh_timeout"@, g.timeout).len() as int);
    lemma_key_kept(
        lines,
        g,
        "refresh_idle"@,
        if_missing(lines, "refresh_timeout"@, g.timeout).len() as int + if_missing(
            lines,
            "refresh_active"@,
            g.active,
        ).len() as int,
    );
}

proof fn lemma_key_kept(lines: Seq<Seq<char>>, g: GlobalTexts, key: Seq<char>, at: int)
    requires
        refresh_lines::is_global_key(key),
        raw_key(global_line(key, value_of(g, key))) == Some(key),
        !has_key(lines, key) ==> 0 <= at < missing(lines, g).len() && missing(lines, g)[at]
            == global_line(key, value_of(g, key)),
        "refresh_timeout"@ != "refresh_active"@,
        "refresh_timeout"@ != "refresh_idle"@,
        "refresh_active"@ != "refresh_idle"@,
    ensures
        has_key(with_globals(lines, g), key),
{
    let all = with_globals(lines, g);
    if has_key(lines, key) {
        let i = choose|i: int| 0 <= i < lines.len() && raw_key(#[trigger] lines[i]) == Some(key);
        assert(all[i] == edited(lines[i], g));
        assert(all[i] == global_line(key, value_of(g, key)));
    } else {
        assert(all[lines.len() + at] == missing(lines, g)[at]);
    }
}

/// What the settings are after the first `n` lines, once each key has occurred.
proof fn lemma_globals_after(lines: Seq<Seq<char>>, g: GlobalTexts, t: int, n: nat)
    requires
        all_set(lines, g),
        n <= lines.len(),
        g.timeout == number::dec_int(t),
        0 < t <= i32::MAX,
        has_no_space(g.active),
        has_no_space(g.idle),
    ensures
        ({
            let got = refresh_lines::refresh_after(lines, n).globals;
            let head = lines.take(n as int);
            &&& has_key(head, "refresh_timeout"@) ==> got.0 == t
            &&& has_key(head, "refresh_active"@) ==> got.1 == refresh_lines::mode_code(g.active)
            &&& has_key(head, "refresh_idle"@) ==> got.2 == refresh_lines::mode_code(g.idle)
        }),
    decreases n,
{
    if n > 0 {
        let st = refresh_lines::refresh_after(lines, (n - 1) as nat);
        lemma_globals_after(lines, g, t, (n - 1) as nat);
        lemma_global_keys();
        number::dec_reads_back(t as nat);
        number::signed_reads_dec_int(t, i32::MIN as int, i32::MAX as int);
        assert(has_no_space(g.timeout)) by {
            assert forall|i: int| 0 <= i < g.timeout.len() implies !text::is_space(
                #[trigger] g.timeout[i],
            ) by {
                assert(number::is_digit(g.timeout[i]));
            }
        }
        let l = lines[n - 1];
        lemma_key(l, "refresh_timeout"@);
        lemma_key(l, "refresh_active"@);
        lemma_key(l, "refresh_idle"@);
        let head = lines.take(n as int);
        let prev = lines.take(n - 1);
        assert(head =~= prev.push(l));
        assert forall|k: Seq<char>| has_key(head, k) <==> (has_key(prev, k) || raw_key(l) == Some(
            k,
        )) by {
            if has_key(prev, k) {
                let i = choose|i: int| 0 <= i < prev.len() && raw_key(#[trigger] prev[i]) == Some(k);
                assert(head[i] == prev[i]);
            }
            if raw_key(l) == Some(k) {
                assert(head[n - 1] == l);
            }
            if has_key(head, k) {
                let i = choose|i: int| 0 <= i < head.len() && raw_key(#[trigger] head[i]) == Some(k);
                if i < n - 1 {
                    assert(prev[i] == head[i]);
                }
            }
        }
        text::lemma_trimmed_id(g.active);
        text::lemma_trimmed_id(g.idle);
        if raw_key(l) == Some("refresh_timeout"@) {
            lemma_made_setting("refresh_timeout"@, g.timeout);
        } else if raw_key(l) == Some("refresh_active"@) {
            lemma_made_setting("refresh_active"@, g.active);
        } else if raw_key(l) == Some("refresh_idle"@) {
            lemma_made_setting("refresh_idle"@, g.idle);
        } else {
            assert(!refresh_lines::is_global_line(l));
        }
    }
}

/// Lines with global keys do not touch the settings of the applications.
proof fn lemma_edit_keeps_apps(lines: Seq<Seq<char>>, g: GlobalTexts, n: nat)
    requires
        n <= with_globals(lines, g).len(),
    ensures
        refresh_lines::refresh_after(with_globals(lines, g), n).apps
            == refresh_lines::refresh_after(
            lines,
            if n <= lines.len() {
                n
            } else {
                lines.len()
            },
        ).apps,
    decreases n,
{
    if n > 0 {
        let all = with_globals(lines, g);
        lemma_edit_keeps_apps(lines, g, (n - 1) as nat);
        lemma_global_keys();
        lemma_made_key("refresh_timeout"@, g.timeout);
        lemma_made_key("refresh_active"@, g.active);
        lemma_made_key("refresh_idle"@, g.idle);
        let m = all[n - 1];
        lemma_key(m, "refresh_timeout"@);
        lemma_key(m, "refresh_active"@);
        lemma_key(m, "refresh_idle"@);
        if n <= lines.len() {
            let l = lines[n - 1];
            assert(m == edited(l, g));
            lemma_key(l, "refresh_timeout"@);
            lemma_key(l, "refresh_active"@);
            lemma_key(l, "refresh_idle"@);
        } else {
            let extra = missing(lines, g);
            assert(m == extra[n - 1 - lines.len()]);
            assert(m == global_line("refresh_timeout"@, g.timeout) || m == global_line(
                "refresh_active"@,
                g.active,
            ) || m == global_line("refresh_idle"@, g.idle));
            assert(refresh_lines::is_global_line(m));
        }
    }
}

proof fn lemma_with_globals_plain(lines: Seq<Seq<char>>, g: GlobalTexts)
    requires
        forall|i: int| 0 <= i < lines.len() ==> !(#[trigger] lines[i]).contains('\n'),
        has_no_space(g.timeout),
        has_no_space(g.active),
        has_no_space(g.idle),
    ensures
        forall|i: int|
            0 <= i < with_globals(lines, g).len() ==> !(#[trigger] with_globals(
                lines,
                g,
            )[i]).contains('\n'),
{
    lemma_global_keys();
    lemma_made_setting("refresh_timeout"@, g.timeout);
    lemma_made_setting("refresh_active"@, g.active);
    lemma_made_setting("refresh_idle"@, g.idle);
    let all = with_globals(lines, g);
    let extra = missing(lines, g);
    assert forall|i: int| 0 <= i < all.len() implies !(#[trigger] all[i]).contains('\n') by {
        if i < lines.len() {
            assert(all[i] == edited(lines[i], g));
            assert(!lines[i].contains('\n'));
        } else {
            assert(all[i] == extra[i - lines.len()]);
        }
    }
}

/// Global settings that were written are read back, and the settings of the
/// applications are what they were.
pub proof fn set_config_reads_back(
    content: Seq<char>,
    timeout: i32,
    active: Seq<char>,
    idle: Seq<char>,
)
    requires
        timeout > 0,
        has_no_space(active),
        has_no_space(idle),
    ensures
        ({
            let before = text::line_seq(content);
            let after = text::line_seq(set_text(before, timeout as int, active, idle));
            let got = refresh_lines::refresh_after(after, after.len());
            &&& got.globals == (
                timeout,
                refresh_lines::mode_code(active),
                refresh_lines::mode_code(idle),
            )
            &&& got.apps == refresh_lines::refresh_after(before, before.len()).apps
        }),
{
    let before = text::line_seq(content);
    let g = GlobalTexts { timeout: number::dec_int(timeout as int), active, idle };
    let all = with_globals(before, g);
    number::dec_reads_back(timeout as nat);
    assert forall|i: int| 0 <= i < g.timeout.len() implies !text::is_space(
        #[trigger] g.timeout[i],
    ) by {
        assert(number::is_digit(g.timeout[i]));
    }
    text::lemma_lines_hold_no_feed(content);
    lemma_with_globals_plain(before, g);
    text::written_lines_lose_cr(all);
    lemma_cr_refresh(all, all.len());
    lemma_with_globals_set(before, g);
    lemma_globals_after(all, g, timeout as int, all.len());
    assert(all.take(all.len() as int) =~= all);
    lemma_edit_keeps_apps(before, g, all.len());
}

/// The two readings differ in the global settings at most.
spec fn same_but_globals(a: config::LoadView, b: config::LoadView) -> bool {
    a == config::LoadView { globals: a.globals, ..b }
}

/// What a line does, but for the global settings, does not depend on them.
proof fn lemma_step_without_globals(
    a: config::LoadView,
    b: config::LoadView,
    line: Seq<char>,
    topo: CpuTopology,
)
    requires
        same_but_globals(a, b),
    ensures
        same_but_globals(config::load_step(a, line, topo), config::load_step(b, line, topo)),
{
}

/// A line with a global key does nothing but set the global settings.
proof fn lemma_global_step(st: config::LoadView, line: Seq<char>, topo: CpuTopology)
    requires
        raw_key(line) matches Some(k) && refresh_lines::is_global_key(k),
    ensures
        same_but_globals(config::load_step(st, line, topo), st),
{
    let p = text::trimmed(line);
    lemma_global_keys();
    text::trimming_twice(line);
    assert(raw_key(p) == raw_key(line));
    lemma_key(p, "refresh_timeout"@);
    lemma_key(p, "refresh_active"@);
    lemma_key(p, "refresh_idle"@);
    assert(refresh_lines::is_global_line(p));
}

proof fn lemma_edited_lines(lines: Seq<Seq<char>>, g: GlobalTexts, n: nat, topo: CpuTopology)
    requires
        n <= lines.len(),
    ensures
        same_but_globals(
            config::load_after(with_globals(lines, g), n, topo),
            config::load_after(lines, n, topo),
        ),
    decreases n,
{
    if n > 0 {
        let k = (n - 1) as nat;
        let all = with_globals(lines, g);
        lemma_edited_lines(lines, g, k, topo);
        let a = config::load_after(all, k, topo);
        let b = config::load_after(lines, k, topo);
        let l = lines[n - 1];
        assert(all[n - 1] == edited(l, g));
        if edited(l, g) == l {
            lemma_step_without_globals(a, b, l, topo);
        } else {
            lemma_global_keys();
            lemma_made_key("refresh_timeout"@, g.timeout);
            lemma_made_key("refresh_active"@, g.active);
            lemma_made_key("refresh_idle"@, g.idle);
            lemma_global_step(a, edited(l, g), topo);
            lemma_global_step(b, l, topo);
        }
    }
}

proof fn lemma_added_lines(lines: Seq<Seq<char>>, g: GlobalTexts, n: nat, topo: CpuTopology)
    requires
        lines.len() <= n <= with_globals(lines, g).len(),
    ensures
        same_but_globals(
            config::load_after(with_globals(lines, g), n, topo),
            config::load_after(lines, lines.len(), topo),
        ),
    decreases n,
{
    if n == lines.len() {
        lemma_edited_lines(lines, g, n, topo);
    } else {
        let k = (n - 1) as nat;
        let all = with_globals(lines, g);
        lemma_added_lines(lines, g, k, topo);
        lemma_global_keys();
        lemma_made_key("refresh_timeout"@, g.timeout);
        lemma_made_key("refresh_active"@, g.active);
        lemma_made_key("refresh_idle"@, g.idle);
        let extra = missing(lines, g);
        let m = all[n - 1];
        assert(m == extra[n - 1 - lines.len()]);
        assert(m == global_line("refresh_timeout"@, g.timeout) || m == global_line(
            "refresh_active"@,
            g.active,
        ) || m == global_line("refresh_idle"@, g.idle));
        lemma_global_step(config::load_after(all, k, topo), m, topo);
    }
}

/// Reading lines without their final carriage returns makes no difference.
proof fn lemma_cr_load(lines: Seq<Seq<char>>, n: nat, topo: CpuTopology)
    requires
        n <= lines.len(),
    ensures
        config::load_after(lines.map_values(|l: Seq<char>| text::without_cr(l)), n, topo)
            == config::load_after(lines, n, topo),
    decreases n,
{
    if n > 0 {
        lemma_cr_load(lines, (n - 1) as nat, topo);
        lemma_cr_setting(lines[n - 1]);
    }
}

/// Changing the global settings leaves the CPU rules, the settings of the
/// applications and the count of failures as they were.
pub proof fn set_config_keeps_rules(
    content: Seq<char>,
    timeout: i32,
    active: Seq<char>,
    idle: Seq<char>,
    topo: CpuTopology,
)
    requires
        has_no_space(active),
        has_no_space(idle),
    ensures
        ({
            let a = config::load_all(content, topo);
            let b = config::load_all(
                set_text(text::line_seq(content), timeout as int, active, idle),
                topo,
            );
            b.rules == a.rules && b.apps == a.apps && b.fails == a.fails
        }),
{
    let before = text::line_seq(content);
    let g = GlobalTexts { timeout: number::dec_int(timeout as int), active, idle };
    let all = with_globals(before, g);
    assert(has_no_space(g.timeout)) by {
        let m = if timeout < 0 {
            -timeout as int
        } else {
            timeout as int
        };
        number::dec_reads_back(m as nat);
        assert forall|i: int| 0 <= i < g.timeout.len() implies !text::is_space(
            #[trigger] g.timeout[i],
        ) by {
            let d = number::dec(m as nat);
            if timeout < 0 {
                if i > 0 {
                    assert(g.timeout[i] == d[i - 1]);
                    assert(number::is_digit(d[i - 1]));
                }
            } else {
                assert(number::is_digit(d[i]));
            }
        }
    }
    text::lemma_lines_hold_no_feed(content);
    lemma_with_globals_plain(before, g);
    text::written_lines_lose_cr(all);
    lemma_cr_load(all, all.len(), topo);
    lemma_added_lines(before, g, all.len(), topo);
}

/// A name that stands for itself in the file: no white space, no `=`, and none
/// of the characters that start comments.
pub open spec fn is_plain_name(s: Seq<char>) -> bool {
    is_plain_key(s) && has_no_space(s)
}

/// The line sets the refresh rate of `pkg`.
pub open spec fn sets_app(line: Seq<char>, pkg: Seq<char>) -> bool {
    !grammar::is_blank_or_comment(line) && (refresh_lines::setting(line) matches Some((k, v)) && k
        == pkg && text::starts(v, "refresh-"@) && refresh_lines::app_setting(v) is Some)
}

/// What an application's line is read as.
pub open spec fn app_triple(timeout: i32, active: Seq<char>, idle: Seq<char>) -> RefreshTriple {
    (
        if timeout < 1 {
            1
        } else {
            timeout
        },
        refresh_lines::mode_code(active),
        refresh_lines::mode_code(idle),
    )
}

pub(crate) proof fn lemma_app_line(pkg: Seq<char>, timeout: i32, active: Seq<char>, idle: Seq<char>)
    requires
        is_plain_name(pkg),
        !refresh_lines::is_global_key(pkg),
        timeout >= 0,
        has_no_space(active),
        has_no_space(idle),
        !active.contains('-'),
        !idle.contains('-'),
    ensures
        ({
            let l = app_line(pkg, timeout as int, active, idle);
            &&& !l.contains('\n')
            &&& forall|st: refresh_lines::RefreshView| #[trigger]
                refresh_lines::refresh_step(st, l) == (refresh_lines::RefreshView {
                    apps: st.apps.insert(pkg, app_triple(timeout, active, idle)),
                    ..st
                })
            &&& l == global_line(pkg, l.skip(pkg.len() as int + 1))
            &&& has_no_space(l.skip(pkg.len() as int + 1))
            &&& text::starts(l.skip(pkg.len() as int + 1), "refresh-"@)
            &&& refresh_lines::app_setting(l.skip(pkg.len() as int + 1)) == Some(
                app_triple(timeout, active, idle),
            )
        }),
{
    let l = app_line(pkg, timeout as int, active, idle);
    let d = number::dec_int(timeout as int);
    number::dec_reads_back(timeout as nat);
    number::signed_reads_dec_int(timeout as int, i32::MIN as int, i32::MAX as int);
    reveal_strlit("=refresh-");
    reveal_strlit("refresh-");
    let word = seq!['r', 'e', 'f', 'r', 'e', 's', 'h'];
    let tail = d + seq!['-'] + (active + seq!['-'] + idle);
    let v = word + seq!['-'] + tail;
    assert("refresh-"@ =~= word + seq!['-']);
    assert("=refresh-"@ =~= seq!['='] + word + seq!['-']);
    assert(l =~= global_line(pkg, v));
    assert forall|i: int| 0 <= i < d.len() implies number::is_digit(#[trigger] d[i]) by {}
    assert(has_no_space(v)) by {
        assert forall|i: int| 0 <= i < v.len() implies !text::is_space(#[trigger] v[i]) by {
            if i < 7 {
                assert(v[i] == word[i]);
            } else if i > 7 {
                let k = i - 8;
                assert(v[i] == tail[k]);
                if k < d.len() {
                    assert(tail[k] == d[k]);
                    assert(number::is_digit(d[k]));
                } else if k > d.len() {
                    let m = k - d.len() - 1;
                    if m < active.len() {
                        assert(tail[k] == active[m]);
                    } else if m > active.len() {
                        assert(tail[k] == idle[m - active.len() - 1]);
                    }
                }
            }
        }
    }
    lemma_made_setting(pkg, v);
    assert(v.take(8) =~= "refresh-"@);
    assert(!word.contains('-'));
    assert(!d.contains('-')) by {
        if d.contains('-') {
            let j = d.index_of('-');
            assert(number::is_digit(d[j]));
        }
    }
    text::lemma_pieces_step(word, '-', tail);
    text::lemma_pieces_step(d, '-', active + seq!['-'] + idle);
    text::lemma_pieces_step(active, '-', idle);
    text::lemma_pieces_single(idle, '-');
    let ps = text::pieces(v, '-');
    assert(ps =~= seq![word, d, active, idle]);
    if active.len() > 0 {
        assert(!text::is_space(active[0]));
        assert(!text::is_space(active[active.len() - 1]));
    }
    text::lemma_trimmed_id(active);
    if idle.len() > 0 {
        assert(!text::is_space(idle[0]));
        assert(!text::is_space(idle[idle.len() - 1]));
    }
    text::lemma_trimmed_id(idle);
    assert(refresh_lines::app_setting(v) == Some(app_triple(timeout, active, idle)));
    assert(pkg.len() > 0);
    assert(l.skip(pkg.len() as int + 1) =~= v);
}

proof fn lemma_first_hit(lines: Seq<Seq<char>>, pkg: Seq<char>, i: int)
    requires
        0 <= i <= lines.len(),
    ensures
        i <= first_hit(lines, pkg, i) <= lines.len(),
        first_hit(lines, pkg, i) < lines.len() ==> is_hit(lines[first_hit(lines, pkg, i)], pkg),
        forall|j: int| i <= j < first_hit(lines, pkg, i) ==> !is_hit(#[trigger] lines[j], pkg),
    decreases lines.len() - i,
{
    if i < lines.len() && !is_hit(lines[i], pkg) {
        lemma_first_hit(lines, pkg, i + 1);
    }
}

/// A line that is hit touches the settings of `pkg` at most.
proof fn lemma_hit_step(line: Seq<char>, pkg: Seq<char>, st: refresh_lines::RefreshView)
    requires
        is_plain_name(pkg),
        !refresh_lines::is_global_key(pkg),
        is_hit(line, pkg),
    ensures
        refresh_lines::refresh_step(st, line).globals == st.globals,
        refresh_lines::refresh_step(st, line).apps.remove(pkg) == st.apps.remove(pkg),
{
    let t = text::trimmed(line);
    text::lemma_first(t, '=');
    lemma_key(line, pkg);
    lemma_global_keys();
    lemma_key(line, "refresh_timeout"@);
    lemma_key(line, "refresh_active"@);
    lemma_key(line, "refresh_idle"@);
    if t.contains('=') {
        assert(raw_key(line) == Some(pkg));
        let kv = refresh_lines::setting(line).unwrap();
        let v = kv.1;
        assert(refresh_lines::apps_after(st.apps, pkg, v).remove(pkg) =~= st.apps.remove(pkg));
    } else {
        text::lemma_key_of_trimmed(line, '=');
        assert(raw_key(line) is None);
        lemma_no_key(line);
    }
}

/// A line without `=` sets nothing.
proof fn lemma_no_key(line: Seq<char>)
    requires
        !line.contains('='),
    ensures
        refresh_lines::setting(line) is None,
{
    let u = grammar::uncommented(line);
    lemma_comment_found(line, 0);
    let c = grammar::comment_from(line, 0);
    if c < line.len() {
        let x = line.take(c);
        text::lemma_trimmed_of_trimmed_end(x);
        text::lemma_key_of_trimmed(x, '=');
        if x.contains('=') {
            let j = x.index_of('=');
            assert(line[j] == '=');
        }
        text::lemma_first(text::trimmed(x), '=');
    } else {
        text::lemma_key_of_trimmed(line, '=');
        text::lemma_first(text::trimmed(line), '=');
    }
}

/// A line that does not set `pkg` leaves its settings alone, and works the same
/// whatever they are.
proof fn lemma_other_step(
    line: Seq<char>,
    pkg: Seq<char>,
    st: refresh_lines::RefreshView,
    t: RefreshTriple,
)
    requires
        !sets_app(line, pkg),
    ensures
        ({
            let st2 = refresh_lines::RefreshView { apps: st.apps.insert(pkg, t), ..st };
            refresh_lines::refresh_step(st2, line) == (refresh_lines::RefreshView {
                apps: refresh_lines::refresh_step(st, line).apps.insert(pkg, t),
                ..refresh_lines::refresh_step(st, line)
            })
        }),
{
    let st2 = refresh_lines::RefreshView { apps: st.apps.insert(pkg, t), ..st };
    let a = refresh_lines::refresh_step(st2, line);
    let b = refresh_lines::refresh_step(st, line);
    assert(a.apps =~= b.apps.insert(pkg, t));
}

proof fn lemma_update_prefix(lines: Seq<Seq<char>>, k: int, l: Seq<char>, n: nat)
    requires
        0 <= k < lines.len(),
        n <= k,
    ensures
        refresh_lines::refresh_after(lines.update(k, l), n) == refresh_lines::refresh_after(
            lines,
            n,
        ),
    decreases n,
{
    if n > 0 {
        lemma_update_prefix(lines, k, l, (n - 1) as nat);
    }
}

proof fn lemma_push_prefix(lines: Seq<Seq<char>>, l: Seq<char>, n: nat)
    requires
        n <= lines.len(),
    ensures
        refresh_lines::refresh_after(lines.push(l), n) == refresh_lines::refresh_after(lines, n),
    decreases n,
{
    if n > 0 {
        lemma_push_prefix(lines, l, (n - 1) as nat);
        assert(lines.push(l)[n - 1] == lines[n - 1]);
    }
}

proof fn lemma_update_suffix(
    lines: Seq<Seq<char>>,
    pkg: Seq<char>,
    k: int,
    l: Seq<char>,
    t: RefreshTriple,
    n: nat,
)
    requires
        is_plain_name(pkg),
        !refresh_lines::is_global_key(pkg),
        0 <= k < n <= lines.len(),
        is_hit(lines[k], pkg),
        forall|j: int| k < j < lines.len() ==> !sets_app(#[trigger] lines[j], pkg),
        forall|st: refresh_lines::RefreshView| #[trigger]
            refresh_lines::refresh_step(st, l) == (refresh_lines::RefreshView {
                apps: st.apps.insert(pkg, t),
                ..st
            }),
    ensures
        ({
            let old_st = refresh_lines::refresh_after(lines, n);
            refresh_lines::refresh_after(lines.update(k, l), n) == (refresh_lines::RefreshView {
                apps: old_st.apps.insert(pkg, t),
                ..old_st
            })
        }),
    decreases n,
{
    let all = lines.update(k, l);
    let prev = refresh_lines::refresh_after(lines, (n - 1) as nat);
    if n == k + 1 {
        lemma_update_prefix(lines, k, l, k as nat);
        lemma_hit_step(lines[k], pkg, prev);
        let old_st = refresh_lines::refresh_after(lines, n);
        assert(old_st.apps.insert(pkg, t) =~= prev.apps.insert(pkg, t)) by {
            assert(old_st.apps.remove(pkg).insert(pkg, t) =~= old_st.apps.insert(pkg, t));
            assert(prev.apps.remove(pkg).insert(pkg, t) =~= prev.apps.insert(pkg, t));
        }
    } else {
        lemma_update_suffix(lines, pkg, k, l, t, (n - 1) as nat);
        assert(all[n - 1] == lines[n - 1]);
        lemma_other_step(lines[n - 1], pkg, prev, t);
    }
}

/// Settings of an application that were added are read back, and nothing else
/// that the file sets has changed. Left out are files with a further line that
/// sets the application behind the one that is replaced: that line stays and
/// counts.
pub proof fn added_app_reads_back(
    lines: Seq<Seq<char>>,
    pkg: Seq<char>,
    timeout: i32,
    active: Seq<char>,
    idle: Seq<char>,
)
    requires
        is_plain_name(pkg),
        !refresh_lines::is_global_key(pkg),
        timeout >= 0,
        has_no_space(active),
        has_no_space(idle),
        !active.contains('-'),
        !idle.contains('-'),
        forall|i: int| 0 <= i < lines.len() ==> !(#[trigger] lines[i]).contains('\n'),
        forall|j: int|
            first_hit(lines, pkg, 0) < j < lines.len() ==> !sets_app(#[trigger] lines[j], pkg),
    ensures
        ({
            let after = text::line_seq(
                text::terminated(added_lines(lines, pkg, timeout as int, active, idle)),
            );
            let a = refresh_lines::refresh_after(lines, lines.len());
            refresh_lines::refresh_after(after, after.len()) == (refresh_lines::RefreshView {
                apps: a.apps.insert(pkg, app_triple(timeout, active, idle)),
                ..a
            })
        }),
{
    let l = app_line(pkg, timeout as int, active, idle);
    let t = app_triple(timeout, active, idle);
    let all = with_app(lines, pkg, l);
    lemma_app_line(pkg, timeout, active, idle);
    lemma_first_hit(lines, pkg, 0);
    let k = first_hit(lines, pkg, 0);
    assert forall|i: int| 0 <= i < all.len() implies !(#[trigger] all[i]).contains('\n') by {
        if i < lines.len() && i != k {
            assert(all[i] == lines[i]);
        }
    }
    text::written_lines_lose_cr(all);
    lemma_cr_refresh(all, all.len());
    if k < lines.len() {
        lemma_update_suffix(lines, pkg, k, l, t, lines.len());
    } else {
        lemma_push_prefix(lines, l, lines.len());
        assert(all[lines.len() as int] == l);
    }
}

proof fn lemma_deleted(lines: Seq<Seq<char>>, pkg: Seq<char>)
    requires
        is_plain_name(pkg),
        !refresh_lines::is_global_key(pkg),
        forall|j: int|
            0 <= j < lines.len() && sets_app(#[trigger] lines[j], pkg) ==> is_hit(lines[j], pkg),
    ensures
        ({
            let kept = lines.filter(|l: Seq<char>| !is_hit(l, pkg));
            let a = refresh_lines::refresh_after(lines, lines.len());
            let b = refresh_lines::refresh_after(kept, kept.len());
            &&& b.globals == a.globals
            &&& b.apps == a.apps.remove(pkg)
            &&& forall|i: int| 0 <= i < kept.len() ==> lines.contains(#[trigger] kept[i])
        }),
    decreases lines.len(),
{
    let f = |l: Seq<char>| !is_hit(l, pkg);
    let kept = lines.filter(f);
    reveal(Seq::filter);
    if lines.len() == 0 {
        assert(Map::<Seq<char>, RefreshTriple>::empty().remove(pkg) =~= Map::<
            Seq<char>,
            RefreshTriple,
        >::empty());
    } else {
        let init = lines.drop_last();
        let x = lines.last();
        assert forall|j: int| 0 <= j < init.len() && sets_app(#[trigger] init[j], pkg) implies is_hit(
            init[j],
            pkg,
        ) by {
            assert(init[j] == lines[j]);
        }
        lemma_deleted(init, pkg);
        let kinit = init.filter(f);
        assert(init.push(x) =~= lines);
        lemma_push_prefix(init, x, init.len());
        let a = refresh_lines::refresh_after(init, init.len());
        let b = refresh_lines::refresh_after(kinit, kinit.len());
        assert(refresh_lines::refresh_after(lines, lines.len()) == refresh_lines::refresh_step(
            a,
            x,
        ));
        if is_hit(x, pkg) {
            lemma_hit_step(x, pkg, a);
            assert(kept == kinit);
        } else {
            assert(kept == kinit.push(x));
            lemma_push_prefix(kinit, x, kinit.len());
            assert(kept[kinit.len() as int] == x);
            assert(lines[lines.len() - 1] == x);
            let a2 = refresh_lines::refresh_step(a, x);
            let b2 = refresh_lines::refresh_step(b, x);
            assert(!sets_app(x, pkg));
            assert(b2.apps =~= a2.apps.remove(pkg));
            assert(b2.globals == a2.globals);
        }
        assert forall|i: int| 0 <= i < kept.len() implies lines.contains(#[trigger] kept[i]) by {
            if i < kinit.len() {
                assert(kept[i] == kinit[i]);
                let j = init.index_of(kinit[i]);
                assert(lines[j] == kinit[i]);
            } else {
                assert(lines[lines.len() - 1] == x);
            }
        }
    }
}

/// Once the settings of an application have been removed the file sets
/// everything but them. Left out are files that set the application in a line
/// with white space behind the `=`: such a line is not removed.
pub proof fn deleted_app_is_gone(lines: Seq<Seq<char>>, pkg: Seq<char>)
    requires
        is_plain_name(pkg),
        !refresh_lines::is_global_key(pkg),
        forall|i: int| 0 <= i < lines.len() ==> !(#[trigger] lines[i]).contains('\n'),
        forall|j: int|
            0 <= j < lines.len() && sets_app(#[trigger] lines[j], pkg) ==> is_hit(lines[j], pkg),
    ensures
        ({
            let after = text::line_seq(text::terminated(remaining_lines(lines, pkg)));
            let a = refresh_lines::refresh_after(lines, lines.len());
            refresh_lines::refresh_after(after, after.len()) == (refresh_lines::RefreshView {
                apps: a.apps.remove(pkg),
                ..a
            })
        }),
{
    let kept = lines.filter(|l: Seq<char>| !is_hit(l, pkg));
    lemma_deleted(lines, pkg);
    assert forall|i: int| 0 <= i < kept.len() implies !(#[trigger] kept[i]).contains('\n') by {
        assert(lines.contains(kept[i]));
        let j = lines.index_of(kept[i]);
        assert(!lines[j].contains('\n'));
    }
    text::written_lines_lose_cr(kept);
    lemma_cr_refresh(kept, kept.len());
}

/// When the global settings change, every line without one of their keys stays
/// where it is, and what is added behind the file has one of these keys.
pub proof fn other_lines_stay(lines: Seq<Seq<char>>, g: GlobalTexts, i: int)
    requires
        0 <= i < with_globals(lines, g).len(),
    ensures
        with_globals(lines, g).len() >= lines.len(),
        i < lines.len() && !(raw_key(lines[i]) matches Some(k) && refresh_lines::is_global_key(k))
            ==> with_globals(lines, g)[i] == lines[i],
        i >= lines.len() ==> {
            let l = with_globals(lines, g)[i];
            ||| l == global_line("refresh_timeout"@, g.timeout)
            ||| l == global_line("refresh_active"@, g.active)
            ||| l == global_line("refresh_idle"@, g.idle)
        },
{
    if i >= lines.len() {
        assert(with_globals(lines, g)[i] == missing(lines, g)[i - lines.len()]);
    }
}

/// Adding the settings of an application replaces one line with such settings,
/// or adds a line at the end where there is none; every other line stays.
pub proof fn one_line_is_replaced(lines: Seq<Seq<char>>, pkg: Seq<char>, line: Seq<char>, i: int)
    requires
        0 <= i < lines.len(),
    ensures
        ({
            let all = with_app(lines, pkg, line);
            &&& all[i] == lines[i] || (all[i] == line && is_setting_of(lines[i], pkg))
            &&& all.contains(line)
            &&& all.len() == lines.len() || (all.len() == lines.len() + 1 && all.last() == line
                && all.drop_last() == lines && !is_hit(lines[i], pkg))
        }),
{
    lemma_first_hit(lines, pkg, 0);
    let k = first_hit(lines, pkg, 0);
    let all = with_app(lines, pkg, line);
    if k < lines.len() {
        assert(all[k] == line);
    } else {
        assert(all[lines.len() as int] == line);
        assert(all.drop_last() =~= lines);
    }
}

/// Removing the settings of an application removes no other line.
pub proof fn other_lines_remain(lines: Seq<Seq<char>>, pkg: Seq<char>, line: Seq<char>)
    ensures
        lines.contains(line) && !is_hit(line, pkg) ==> remaining_lines(lines, pkg).contains(line),
        remaining_lines(lines, pkg).contains(line) ==> lines.contains(line) && !is_hit(line, pkg),
        remaining_lines(lines.push(line), pkg) == if is_hit(line, pkg) {
            remaining_lines(lines, pkg)
        } else {
            remaining_lines(lines, pkg).push(line)
        },
    decreases lines.len(),
{
    reveal(Seq::filter);
    let f = |l: Seq<char>| !is_hit(l, pkg);
    assert(lines.push(line).drop_last() =~= lines);
    if lines.len() > 0 {
        let init = lines.drop_last();
        other_lines_remain(init, pkg, line);
        let a = init.filter(f);
        let b = lines.filter(f);
        if lines.contains(line) {
            let i = lines.index_of(line);
            if i < init.len() {
                assert(init[i] == line);
                if !is_hit(line, pkg) {
                    let k = a.index_of(line);
                    assert(a[k] == line);
                    assert(b[k] == line);
                }
            } else if !is_hit(line, pkg) {
                assert(b[a.len() as int] == line);
            }
        }
        if b.contains(line) {
            let k = b.index_of(line);
            if k < a.len() {
                assert(a[k] == line);
                let i = init.index_of(line);
                assert(lines[i] == line);
            } else {
                assert(lines[lines.len() - 1] == line);
            }
        }
    }
}

/// A file that has none of the global settings has the defaults once they have
/// been put in front: the given rates, and 30 seconds. The settings of the
/// applications are what they were.
pub proof fn defaults_are_read_back(lines: Seq<Seq<char>>, active: int, idle: int)
    requires
        active == 120 || active == 90 || active == 60,
        idle == 120 || idle == 90 || idle == 60,
        !has_key(lines, "refresh_timeout"@),
        !has_key(lines, "refresh_active"@),
        !has_key(lines, "refresh_idle"@),
    ensures
        ({
            let all = with_defaults(lines, active, idle) + lines;
            let got = refresh_lines::refresh_after(all, all.len());
            &&& default_text(lines, active, idle) == Some(text::terminated(all))
            &&& got.globals.0 == 30
            &&& got.globals.1 == refresh_lines::mode_code(number::dec(active as nat))
            &&& got.globals.2 == refresh_lines::mode_code(number::dec(idle as nat))
            &&& got.apps == refresh_lines::refresh_after(lines, lines.len()).apps
        }),
{
    lemma_global_keys();
    let a = number::dec_int(active);
    let i = number::dec_int(idle);
    let la = global_line("refresh_active"@, a);
    let li = global_line("refresh_idle"@, i);
    let lt = global_line("refresh_timeout"@, "30"@);
    reveal_strlit("30");
    number::dec_reads_back(active as nat);
    number::dec_reads_back(idle as nat);
    number::dec_reads_back(30);
    assert(number::dec(30) =~= "30"@) by {
        reveal_with_fuel(number::dec, 3);
    }
    number::signed_reads_dec_int(30, i32::MIN as int, i32::MAX as int);
    assert(has_no_space(a)) by {
        assert forall|k: int| 0 <= k < a.len() implies !text::is_space(#[trigger] a[k]) by {
            assert(number::is_digit(a[k]));
        }
    }
    assert(has_no_space(i)) by {
        assert forall|k: int| 0 <= k < i.len() implies !text::is_space(#[trigger] i[k]) by {
            assert(number::is_digit(i[k]));
        }
    }
    lemma_made_setting("refresh_active"@, a);
    lemma_made_setting("refresh_idle"@, i);
    lemma_made_setting("refresh_timeout"@, "30"@);
    assert(!text::is_space(a[0]) && !text::is_space(a[a.len() - 1]));
    assert(!text::is_space(i[0]) && !text::is_space(i[i.len() - 1]));
    text::lemma_trimmed_id(a);
    text::lemma_trimmed_id(i);
    let pre = with_defaults(lines, active, idle);
    assert(pre =~= seq![la, li, lt]);
    let all = pre + lines;
    assert(all[0] == la && all[1] == li && all[2] == lt);
    reveal_with_fuel(refresh_lines::refresh_after, 4);
    let three = refresh_lines::refresh_after(all, 3);
    assert(three.globals == (
        30i32,
        refresh_lines::mode_code(a),
        refresh_lines::mode_code(i),
    ));
    assert(three.apps == Map::<Seq<char>, RefreshTriple>::empty());
    lemma_after_defaults(lines, pre, lines.len(), three.globals);
    assert(refresh_lines::refresh_after(all, all.len()) == refresh_lines::refresh_after(
        all,
        3 + lines.len(),
    ));
}

proof fn lemma_after_defaults(
    lines: Seq<Seq<char>>,
    pre: Seq<Seq<char>>,
    n: nat,
    globals: RefreshTriple,
)
    requires
        n <= lines.len(),
        !has_key(lines, "refresh_timeout"@),
        !has_key(lines, "refresh_active"@),
        !has_key(lines, "refresh_idle"@),
        refresh_lines::refresh_after(pre + lines, pre.len()).globals == globals,
        refresh_lines::refresh_after(pre + lines, pre.len()).apps == Map::<
            Seq<char>,
            RefreshTriple,
        >::empty(),
    ensures
        refresh_lines::refresh_after(pre + lines, pre.len() + n).globals == globals,
        refresh_lines::refresh_after(pre + lines, pre.len() + n).apps
            == refresh_lines::refresh_after(lines, n).apps,
    decreases n,
{
    if n > 0 {
        lemma_global_keys();
        lemma_after_defaults(lines, pre, (n - 1) as nat, globals);
        let l = lines[n - 1];
        assert((pre + lines)[pre.len() + n - 1] == l);
        assert(!refresh_lines::is_global_line(l)) by {
            if refresh_lines::is_global_line(l) {
                let (k, v) = refresh_lines::setting(l)->0;
                lemma_key(l, k);
                assert(has_key(lines, k));
            }
        }
    }
}

/// After the defaults have been put in front the file has all three global
/// settings, and what it had is unchanged behind them.
pub proof fn defaults_fill_gaps(lines: Seq<Seq<char>>, active: int, idle: int, key: Seq<char>)
    requires
        refresh_lines::is_global_key(key),
    ensures
        has_key(with_defaults(lines, active, idle) + lines, key),
        has_key(lines, key) ==> !has_key(with_defaults(lines, active, idle), key),
{
    lemma_global_keys();
    let a = number::dec_int(active);
    let i = number::dec_int(idle);
    let la = global_line("refresh_active"@, a);
    let li = global_line("refresh_idle"@, i);
    let lt = global_line("refresh_timeout"@, "30"@);
    lemma_made_key("refresh_active"@, a);
    lemma_made_key("refresh_idle"@, i);
    lemma_made_key("refresh_timeout"@, "30"@);
    let pre = with_defaults(lines, active, idle);
    let all = pre + lines;
    if has_key(lines, key) {
        let j = choose|j: int| 0 <= j < lines.len() && raw_key(#[trigger] lines[j]) == Some(key);
        assert(all[pre.len() + j] == lines[j]);
        if has_key(pre, key) {
            let k = choose|k: int| 0 <= k < pre.len() && raw_key(#[trigger] pre[k]) == Some(key);
            assert(pre[k] == la || pre[k] == li || pre[k] == lt);
        }
    } else {
        let p1 = if_missing(lines, "refresh_active"@, a);
        let p2 = if_missing(lines, "refresh_idle"@, i);
        if key == "refresh_active"@ {
            assert(all[0] == la);
        } else if key == "refresh_idle"@ {
            assert(all[p1.len() as int] == li);
        } else {
            assert(all[(p1 + p2).len() as int] == lt);
        }
    }
}

} // verus!
