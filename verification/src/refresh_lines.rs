//! The refresh-rate settings of the rule file: the three global ones, and one
//! line for each application that has its own.
use vstd::prelude::*;

use crate::grammar;
use crate::names::NameMap;
use crate::number;
use crate::text;

verus! {

broadcast use vstd::string::group_string_axioms;

/// The code for a refresh rate of 120 Hz.
pub const REFRESH_MODE_120: i32 = 0;

/// The code for a refresh rate of 90 Hz.
pub const REFRESH_MODE_90: i32 = 2;

/// The code for a refresh rate of 60 Hz.
pub const REFRESH_MODE_60: i32 = 1;

/// The home screen: it takes part in refresh-rate control without a rule of
/// its own.
pub const DEFAULT_REFRESH_PACKAGE: &'static str = "com.android.launcher3";

/// Timeout in seconds, and the codes of the active and the idle mode.
pub type RefreshTriple = (i32, i32, i32);

/// The global settings of a file that has none.
pub open spec fn default_globals() -> RefreshTriple {
    (30, REFRESH_MODE_120, REFRESH_MODE_60)
}

/// The mode code that a trimmed text stands for.
pub open spec fn mode_code(t: Seq<char>) -> i32 {
    if t == "120"@ {
        REFRESH_MODE_120
    } else if t == "90"@ {
        REFRESH_MODE_90
    } else {
        REFRESH_MODE_60
    }
}

/// The text that a mode code is written as.
pub open spec fn mode_text(mode: i32) -> Seq<char> {
    if mode == REFRESH_MODE_120 {
        "120"@
    } else if mode == REFRESH_MODE_90 {
        "90"@
    } else {
        "60"@
    }
}

/// Reads a refresh rate; anything but 120 and 90 counts as 60.
pub fn parse_refresh_mode(s: &str) -> (r: i32)
    ensures
        r == mode_code(text::trimmed(s@)),
{
    let t = text::trim(s);
    if text::same(t, "120") {
        REFRESH_MODE_120
    } else if text::same(t, "90") {
        REFRESH_MODE_90
    } else {
        REFRESH_MODE_60
    }
}

/// Writes a refresh rate.
pub fn refresh_mode_str(mode: i32) -> (r: &'static str)
    ensures
        r@ == mode_text(mode),
{
    if mode == REFRESH_MODE_120 {
        "120"
    } else if mode == REFRESH_MODE_90 {
        "90"
    } else {
        "60"
    }
}

/// One of the three mode codes.
pub open spec fn is_mode(mode: i32) -> bool {
    mode == REFRESH_MODE_120 || mode == REFRESH_MODE_90 || mode == REFRESH_MODE_60
}

/// Reading a mode always gives a mode code, and reading what a mode code is
/// written as gives that code.
pub proof fn mode_reads_back(mode: i32, s: Seq<char>)
    ensures
        is_mode(mode_code(s)),
        is_mode(mode) ==> mode_code(text::trimmed(mode_text(mode))) == mode,
{
    reveal_strlit("120");
    reveal_strlit("90");
    reveal_strlit("60");
    text::lemma_trimmed_id(mode_text(mode));
    assert("120"@.len() != "60"@.len());
    assert("90"@[0] != "60"@[0]);
}

/// One of the keys of the global settings.
pub open spec fn is_global_key(k: Seq<char>) -> bool {
    k == "refresh_timeout"@ || k == "refresh_active"@ || k == "refresh_idle"@
}

/// Key and value of a line, comment and outer white space apart.
pub open spec fn setting(line: Seq<char>) -> Option<(Seq<char>, Seq<char>)> {
    grammar::key_value(text::trimmed(grammar::uncommented(line)))
}

/// The line is a refresh-rate setting, not a CPU rule.
pub open spec fn is_refresh_line(line: Seq<char>) -> bool {
    match setting(line) {
        Some((k, v)) => is_global_key(k) || text::starts(v, "refresh-"@),
        None => false,
    }
}

/// Key and value of a line.
fn parse_setting<'a>(line: &'a str) -> (r: Option<(&'a str, &'a str)>)
    ensures
        match r {
            Some((k, v)) => setting(line@) == Some((k@, v@)),
            None => setting(line@) is None,
        },
{
    match text::split_once(text::trim(grammar::strip_comment(line)), '=') {
        Some((k, v)) => Some((text::trim(k), text::trim(v))),
        None => None,
    }
}

/// Whether a line is a refresh-rate setting.
pub fn is_refresh_config_line(line: &str) -> (r: bool)
    ensures
        r == is_refresh_line(line@),
{
    match parse_setting(line) {
        Some((k, v)) => text::same(k, "refresh_timeout") || text::same(k, "refresh_active")
            || text::same(k, "refresh_idle") || text::starts_with(v, "refresh-"),
        None => false,
    }
}

/// A line that sets a global value.
pub open spec fn is_global_line(line: Seq<char>) -> bool {
    match setting(line) {
        Some((k, v)) => is_global_key(k),
        None => false,
    }
}

/// The global settings after a line. A timeout that is no positive number
/// leaves the old one.
pub open spec fn globals_after(g: RefreshTriple, line: Seq<char>) -> RefreshTriple {
    match setting(line) {
        Some((k, v)) => if k == "refresh_timeout"@ {
            match number::signed(v, i32::MIN as int, i32::MAX as int) {
                Some(n) => if n > 0 {
                    (n as i32, g.1, g.2)
                } else {
                    g
                },
                None => g,
            }
        } else if k == "refresh_active"@ {
            (g.0, mode_code(text::trimmed(v)), g.2)
        } else if k == "refresh_idle"@ {
            (g.0, g.1, mode_code(text::trimmed(v)))
        } else {
            g
        },
        None => g,
    }
}

/// Takes a global setting in; whether the line is one.
pub fn parse_refresh_config_line(line: &str, globals: &mut RefreshTriple) -> (r: bool)
    ensures
        r == is_global_line(line@),
        *final(globals) == globals_after(*old(globals), line@),
{
    proof {
        reveal_strlit("refresh_timeout");
        reveal_strlit("refresh_active");
        reveal_strlit("refresh_idle");
        assert("refresh_timeout"@.len() != "refresh_active"@.len());
        assert("refresh_timeout"@.len() != "refresh_idle"@.len());
        assert("refresh_active"@.len() != "refresh_idle"@.len());
    }
    match parse_setting(line) {
        Some((k, v)) => {
            if text::same(k, "refresh_timeout") {
                if let Some(n) = number::parse_i32(v) {
                    if n > 0 {
                        *globals = (n, globals.1, globals.2);
                    }
                }
                true
            } else if text::same(k, "refresh_active") {
                *globals = (globals.0, parse_refresh_mode(v), globals.2);
                true
            } else if text::same(k, "refresh_idle") {
                *globals = (globals.0, globals.1, parse_refresh_mode(v));
                true
            } else {
                false
            }
        },
        None => false,
    }
}

/// The value of an application's line, `refresh-<timeout>-<active>-<idle>`.
/// A timeout that is no number counts as 30, and one below 1 as 1.
pub open spec fn app_setting(val: Seq<char>) -> Option<RefreshTriple> {
    let ps = text::pieces(val, '-');
    if ps.len() == 4 && ps[1].len() > 0 {
        let t = match number::signed(ps[1], i32::MIN as int, i32::MAX as int) {
            Some(n) => n,
            None => 30,
        };
        Some(
            (
                if t < 1 {
                    1
                } else {
                    t as i32
                },
                mode_code(text::trimmed(ps[2])),
                mode_code(text::trimmed(ps[3])),
            ),
        )
    } else {
        None
    }
}

/// The line of an application with its own settings, complete or not.
pub open spec fn is_app_line(pkg: Seq<char>, val: Seq<char>) -> bool {
    pkg.len() > 0 && text::starts(val, "refresh-"@)
}

/// The settings of the applications after a line.
pub open spec fn apps_after(
    apps: Map<Seq<char>, RefreshTriple>,
    pkg: Seq<char>,
    val: Seq<char>,
) -> Map<Seq<char>, RefreshTriple> {
    if is_app_line(pkg, val) {
        match app_setting(val) {
            Some(t) => apps.insert(pkg, t),
            None => apps,
        }
    } else {
        apps
    }
}

/// Reads the value of an application's line.
fn parse_app_setting(val: &str) -> (r: Option<RefreshTriple>)
    ensures
        r == app_setting(val@),
{
    let parts = text::split(val, '-');
    let ghost ps = text::pieces(val@, '-');
    assert(parts.len() == ps.len());
    if parts.len() != 4 {
        return None;
    }
    assert(parts@[1]@ == ps[1]);
    assert(parts@[2]@ == ps[2]);
    assert(parts@[3]@ == ps[3]);
    if parts[1].is_empty() {
        return None;
    }
    let t: i32 = match number::parse_i32(parts[1]) {
        Some(n) => n,
        None => 30,
    };
    let t: i32 = if t < 1 {
        1
    } else {
        t
    };
    Some((t, parse_refresh_mode(parts[2]), parse_refresh_mode(parts[3])))
}

/// Takes an application's line in; whether the line is one.
pub fn route_pkg_val_line(pkg: &str, val: &str, apps: &mut NameMap<RefreshTriple>) -> (r: bool)
    requires
        old(apps).wf(),
    ensures
        final(apps).wf(),
        r == is_app_line(pkg@, val@),
        final(apps)@ == apps_after(old(apps)@, pkg@, val@),
{
    if pkg.is_empty() || !text::starts_with(val, "refresh-") {
        return false;
    }
    if let Some(t) = parse_app_setting(val) {
        apps.insert(pkg, t);
    }
    true
}

/// The refresh-rate settings of a file.
pub ghost struct RefreshView {
    pub globals: RefreshTriple,
    pub apps: Map<Seq<char>, RefreshTriple>,
}

/// The settings after one line of the file.
pub open spec fn refresh_step(st: RefreshView, line: Seq<char>) -> RefreshView {
    if grammar::is_blank_or_comment(line) {
        st
    } else if is_global_line(line) {
        RefreshView { globals: globals_after(st.globals, line), ..st }
    } else {
        match setting(line) {
            Some((k, v)) => RefreshView { apps: apps_after(st.apps, k, v), ..st },
            None => st,
        }
    }
}

/// The settings after the first `n` lines.
pub open spec fn refresh_after(lines: Seq<Seq<char>>, n: nat) -> RefreshView
    decreases n,
{
    if n == 0 {
        RefreshView { globals: default_globals(), apps: Map::empty() }
    } else {
        refresh_step(refresh_after(lines, (n - 1) as nat), lines[n - 1])
    }
}

/// The refresh-rate settings of a text; no text stands for an empty one.
pub open spec fn refresh_of(content: Option<&str>) -> RefreshView {
    match content {
        Some(t) => refresh_after(text::line_seq(t@), text::line_seq(t@).len()),
        None => RefreshView { globals: default_globals(), apps: Map::empty() },
    }
}

/// Reads only the refresh-rate settings of the rule file.
pub fn load_refresh_config(content: Option<&str>) -> (r: (RefreshTriple, NameMap<RefreshTriple>))
    ensures
        r.1.wf(),
        r.0 == refresh_of(content).globals,
        r.1@ == refresh_of(content).apps,
{
    let mut globals: RefreshTriple = (30, REFRESH_MODE_120, REFRESH_MODE_60);
    let mut apps: NameMap<RefreshTriple> = NameMap::new();
    if let Some(t) = content {
        let lines = text::lines(t);
        let ghost all = text::line_seq(t@);
        let mut i: usize = 0;
        while i < lines.len()
            invariant
                i <= lines.len(),
                text::views(lines@) == all,
                apps.wf(),
                globals == refresh_after(all, i as nat).globals,
                apps@ == refresh_after(all, i as nat).apps,
            decreases lines.len() - i,
        {
            let line = lines[i];
            assert(line@ == all[i as int]);
            if !grammar::is_skip_line(line) {
                if !parse_refresh_config_line(line, &mut globals) {
                    if let Some((k, v)) = parse_setting(line) {
                        let _ = route_pkg_val_line(k, v, &mut apps);
                    }
                }
            }
            i += 1;
        }
    }
    (globals, apps)
}

} // verus!
