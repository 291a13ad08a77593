//! What the requests of the web front end do: which fields they are made of,
//! what they change, and when and how they are refused.
use vstd::prelude::*;

use crate::config;
use crate::cpuset;
use crate::cpuset::CpuTopology;
use crate::grammar;
use crate::json::Field;
use crate::settings;
use crate::text;
use crate::values;
use crate::web_api;
use crate::web_api::{
    ApiError, ChangeActions, ChangeView, RefreshSetView, RuleCallView, RuleEdit, SuggestView,
    WebState,
};

verus! {

broadcast use vstd::string::group_string_axioms;

/// A member with a text.
pub open spec fn has_text(m: Map<Seq<char>, Field>, key: Seq<char>, s: Seq<char>) -> bool {
    m.contains_key(key) && m[key] == Field::Text(s)
}

/// A name that the front end takes: one that a rule can have, as it stands, and
/// that no comment could hide.
pub open spec fn is_name(s: Seq<char>, max: nat) -> bool {
    &&& 0 < s.len()
    &&& text::byte_len(s) < max
    &&& text::trimmed(s) == s
    &&& forall|i: int|
        0 <= i < s.len() ==> ' ' <= #[trigger] s[i] && s[i] != '\u{7f}' && s[i] != '#' && s[i] != '/'
            && s[i] != '{'
}

proof fn lemma_name(s: Seq<char>, max: nat)
    requires
        is_name(s, max),
    ensures
        web_api::is_token(s, max),
        web_api::is_unbraced(s),
        config::is_printable(s),
{
    values::lemma_printable(s);
    assert forall|i: int| 0 <= i < s.len() implies ' ' <= #[trigger] s[i] && s[i] != '\u{7f}' by {}
    if s.contains('#') {
        assert(s[s.index_of('#')] == '#');
    }
    if s.contains('{') {
        assert(s[s.index_of('{')] == '{');
    }
    reveal_strlit("//");
    if text::holds(s, "//"@) {
        let k = choose|k: int| 0 <= k <= s.len() && text::starts(#[trigger] s.skip(k), "//"@);
        assert(s.skip(k).take(2)[0] == s[k]);
    }
}

/// A request for a rule sets the CPUs of the package that it names, or of the
/// thread of it that it names.
pub proof fn rules_are_set_as_asked(
    m: Map<Seq<char>, Field>,
    pkg: Seq<char>,
    thread: Seq<char>,
    cpus: Seq<char>,
    topo: CpuTopology,
)
    requires
        has_text(m, "pkg"@, pkg),
        has_text(m, "cpus"@, cpus),
        is_name(pkg, 128),
        text::trimmed(cpus) == cpus,
        text::byte_len(cpus) < 64,
        grammar::has_spec_shape(cpus),
        cpuset::spec_cpus(cpus, topo) != Set::<int>::empty(),
    ensures
        has_text(m, "thread"@, thread) && is_name(thread, 32) ==> web_api::rule_asked(
            Some(m),
            Some(topo),
        ) == Ok::<RuleCallView, ApiError>(RuleCallView::Upsert { pkg, thread, cpus }),
        !m.contains_key("thread"@) ==> web_api::rule_asked(Some(m), Some(topo)) == Ok::<
            RuleCallView,
            ApiError,
        >(RuleCallView::Upsert { pkg, thread: seq![], cpus }),
{
    lemma_name(pkg, 128);
    if is_name(thread, 32) {
        lemma_name(thread, 32);
    }
    values::lemma_some_item(cpus);
    text::trimming_twice(pkg);
}

/// What is set is a rule of the package and the thread that were named, white
/// space around them apart, and only for CPUs that the machine has.
pub proof fn only_named_rules_are_set(
    pkg: Option<Seq<char>>,
    cpus: Option<Seq<char>>,
    thread: Option<Seq<char>>,
    topo: Option<CpuTopology>,
)
    ensures
        match web_api::rule_request(pkg, cpus, thread, topo) {
            Ok(call) => call matches RuleCallView::Upsert { pkg: p, thread: t, cpus: c } && {
                &&& pkg matches Some(x) && p == text::trimmed(x)
                &&& cpus matches Some(x) && c == text::trimmed(x)
                &&& match thread {
                    Some(x) => t == text::trimmed(x),
                    None => t.len() == 0,
                }
                &&& topo matches Some(x) && cpuset::spec_cpus(c, x) != Set::<int>::empty()
                &&& values::are_names(p, t)
                &&& !p.contains('#') && !t.contains('#')
                &&& !text::holds(p, "//"@)
                &&& !(t.len() == 0 && p.contains('{') && p.last() == '}')
            },
            Err(e) => web_api::status_of(e) == if e == ApiError::NotReady {
                500u16
            } else {
                400u16
            },
        },
{
    if let Ok(call) = web_api::rule_request(pkg, cpus, thread, topo) {
        let p = web_api::trimmed_or_none(pkg);
        let t = web_api::trimmed_or_none(thread);
        text::trimming_twice(pkg->0);
        values::lemma_printable(p);
        if thread is Some {
            text::trimming_twice(thread->0);
        }
        if t.len() == 0 {
            assert(t =~= Seq::<char>::empty());
            assert(vstd::utf8::encode_utf8(t).len() == 0);
            assert(!t.contains('#'));
            reveal_strlit("}");
            if p.contains('{') && p.last() == '}' {
                assert(p.skip(p.len() - 1) =~= "}"@);
            }
        } else {
            values::lemma_printable(t);
        }
    }
}

/// A request for a rule without a package or without CPUs, before there is a
/// configuration, with a name that no rule can have, or with no CPUs of this
/// machine, is refused.
pub proof fn bad_rules_are_refused(
    pkg: Option<Seq<char>>,
    cpus: Option<Seq<char>>,
    thread: Option<Seq<char>>,
    topo: CpuTopology,
)
    ensures
        pkg is None || cpus is None ==> web_api::rule_request(pkg, cpus, thread, Some(topo)) == Err::<
            RuleCallView,
            ApiError,
        >(ApiError::MissingRuleFields),
        pkg is Some && cpus is Some ==> web_api::rule_request(pkg, cpus, thread, None) == Err::<
            RuleCallView,
            ApiError,
        >(ApiError::NotReady),
        pkg is Some && cpus is Some && (text::trimmed(pkg->0).len() == 0 || text::byte_len(
            text::trimmed(pkg->0),
        ) >= 128 || text::trimmed(pkg->0).contains('#')) ==> web_api::rule_request(
            pkg,
            cpus,
            thread,
            Some(topo),
        ) == Err::<RuleCallView, ApiError>(ApiError::BadName),
        pkg is Some && cpus is Some && is_name(text::trimmed(pkg->0), 128) && thread is Some
            && text::trimmed(thread->0).len() > 0 && (text::byte_len(text::trimmed(thread->0))
            >= 32 || text::trimmed(thread->0).contains('#')) ==> web_api::rule_request(
            pkg,
            cpus,
            thread,
            Some(topo),
        ) == Err::<RuleCallView, ApiError>(ApiError::BadName),
        pkg is Some && cpus is Some && is_name(text::trimmed(pkg->0), 128) && thread is None && (
        !grammar::has_spec_shape(text::trimmed(cpus->0)) || cpuset::spec_cpus(
            text::trimmed(cpus->0),
            topo,
        ) == Set::<int>::empty()) ==> web_api::rule_request(pkg, cpus, thread, Some(topo)) == Err::<
            RuleCallView,
            ApiError,
        >(ApiError::BadSpec),
{
    if pkg is Some {
        text::trimming_twice(pkg->0);
        if is_name(text::trimmed(pkg->0), 128) {
            lemma_name(text::trimmed(pkg->0), 128);
        }
    }
    if thread is Some {
        text::trimming_twice(thread->0);
    }
}

/// A request to remove rules removes all of the package where it says `all`, and
/// otherwise the one of the thread that it names, or the one of the package as a
/// whole.
pub proof fn rules_are_removed_as_asked(
    m: Map<Seq<char>, Field>,
    pkg: Seq<char>,
    thread: Seq<char>,
)
    ensures
        has_text(m, "pkg"@, pkg) && m.contains_key("all"@) && m["all"@] == Field::Flag(true)
            ==> web_api::delete_asked(Some(m)) == Ok::<RuleCallView, ApiError>(
            RuleCallView::DeletePkg { pkg: text::trimmed(pkg) },
        ),
        has_text(m, "pkg"@, pkg) && !m.contains_key("all"@) && has_text(m, "thread"@, thread)
            ==> web_api::delete_asked(Some(m)) == Ok::<RuleCallView, ApiError>(
            RuleCallView::Delete { pkg: text::trimmed(pkg), thread: text::trimmed(thread) },
        ),
        has_text(m, "pkg"@, pkg) && !m.contains_key("all"@) && !m.contains_key("thread"@)
            ==> web_api::delete_asked(Some(m)) == Ok::<RuleCallView, ApiError>(
            RuleCallView::Delete { pkg: text::trimmed(pkg), thread: seq![] },
        ),
        has_text(m, "pkg"@, pkg) && m.contains_key("all"@) && m["all"@] == Field::Flag(false)
            && has_text(m, "thread"@, thread) ==> web_api::delete_asked(Some(m)) == Ok::<
            RuleCallView,
            ApiError,
        >(RuleCallView::Delete { pkg: text::trimmed(pkg), thread: text::trimmed(thread) }),
        !m.contains_key("pkg"@) ==> web_api::delete_asked(Some(m)) == Err::<RuleCallView, ApiError>(
            ApiError::MissingPkg,
        ),
{
}

/// A request to rename gives the rules of `old` to `new`; the same name asks for
/// nothing, and names that no rule can have are refused.
pub proof fn packages_are_renamed_as_asked(
    m: Map<Seq<char>, Field>,
    from: Seq<char>,
    to: Seq<char>,
)
    ensures
        has_text(m, "old"@, from) && has_text(m, "new"@, to) && is_name(from, 128) && is_name(
            to,
            128,
        ) && from != to ==> web_api::rename_asked(Some(m)) == Ok::<Option<RuleCallView>, ApiError>(
            Some(RuleCallView::Rename { old_name: from, new_name: to }),
        ),
        has_text(m, "old"@, from) && has_text(m, "new"@, from) && is_name(from, 128)
            ==> web_api::rename_asked(Some(m)) == Ok::<Option<RuleCallView>, ApiError>(None),
        has_text(m, "old"@, from) && has_text(m, "new"@, to) && (text::trimmed(from).len() == 0
            || text::trimmed(to).len() == 0 || text::trimmed(to).contains('#') || text::byte_len(
            text::trimmed(to),
        ) >= 128) ==> web_api::rename_asked(Some(m)) == Err::<Option<RuleCallView>, ApiError>(
            ApiError::BadName,
        ),
        !m.contains_key("old"@) || !m.contains_key("new"@) ==> web_api::rename_asked(Some(m))
            == Err::<Option<RuleCallView>, ApiError>(ApiError::MissingNames),
{
    text::trimming_twice(from);
    text::trimming_twice(to);
    if is_name(from, 128) {
        lemma_name(from, 128);
    }
    if is_name(to, 128) {
        lemma_name(to, 128);
    }
}

/// A request for suggestions with a package asks for threads of it, and one
/// without for packages, that match `q`.
pub proof fn suggestions_are_asked_for(m: Map<Seq<char>, Field>, q: Seq<char>, pkg: Seq<char>)
    ensures
        has_text(m, "q"@, q) && has_text(m, "pkg"@, pkg) && is_name(pkg, 128) && text::byte_len(
            text::trimmed(q),
        ) <= 64 ==> web_api::suggest_asked(Some(m)) == Ok::<SuggestView, ApiError>(
            SuggestView::Threads(pkg, text::trimmed(q)),
        ),
        has_text(m, "q"@, q) && !m.contains_key("pkg"@) && text::byte_len(text::trimmed(q)) <= 64
            ==> web_api::suggest_asked(Some(m)) == Ok::<SuggestView, ApiError>(
            SuggestView::Packages(text::trimmed(q)),
        ),
        has_text(m, "q"@, q) && text::byte_len(text::trimmed(q)) > 64 ==> web_api::suggest_asked(
            Some(m),
        ) == Err::<SuggestView, ApiError>(ApiError::LongQuery),
{
    if is_name(pkg, 128) {
        lemma_name(pkg, 128);
    }
    text::trimming_twice(pkg);
}

/// A request to change the settings changes what it names: modes up to 2, and
/// intervals of 1 to 3600 seconds, and is refused for any other.
pub proof fn settings_are_changed_as_asked(
    m: Map<Seq<char>, Field>,
    mode: u64,
    interval: u64,
)
    ensures
        m == Map::<Seq<char>, Field>::empty().insert("mode"@, Field::Number(mode)) && mode <= 2
            ==> web_api::change_asked(Some(m)) == Ok::<ChangeView, ApiError>(
            ChangeView {
                mode: Some(mode as u8),
                interval: None,
                cpuset_name: None,
                config_file: None,
            },
        ),
        m.contains_key("mode"@) && m["mode"@] == Field::Number(mode) && mode > 2
            ==> web_api::change_asked(Some(m)) == Err::<ChangeView, ApiError>(ApiError::BadMode),
        m == Map::<Seq<char>, Field>::empty().insert("interval"@, Field::Number(interval)) && 1
            <= interval <= 3600 ==> web_api::change_asked(Some(m)) == Ok::<ChangeView, ApiError>(
            ChangeView {
                mode: None,
                interval: Some(interval),
                cpuset_name: None,
                config_file: None,
            },
        ),
        m.contains_key("interval"@) && m["interval"@] == Field::Number(interval) && !(1 <= interval
            <= 3600) && !m.contains_key("mode"@) ==> web_api::change_asked(Some(m)) == Err::<
            ChangeView,
            ApiError,
        >(ApiError::BadInterval),
{
    lemma_keys();
}

/// The names of the settings differ.
proof fn lemma_keys()
    ensures
        "mode"@ != "interval"@,
        "mode"@ != "cpuset_name"@,
        "mode"@ != "config_file"@,
        "interval"@ != "cpuset_name"@,
        "interval"@ != "config_file"@,
        "cpuset_name"@ != "config_file"@,
{
    reveal_strlit("mode");
    reveal_strlit("interval");
    reveal_strlit("cpuset_name");
    reveal_strlit("config_file");
    assert("mode"@.len() == 4);
    assert("interval"@.len() == 8);
    assert("cpuset_name"@.len() == 11);
    assert("config_file"@.len() == 11);
    assert("cpuset_name"@[1] == 'p');
    assert("config_file"@[1] == 'o');
}

/// A name for the cpuset directory and a path for the rule file that were asked
/// for are taken, where they can be had, and are refused otherwise.
pub proof fn names_and_paths_are_changed_as_asked(
    m: Map<Seq<char>, Field>,
    name: Seq<char>,
    path: Seq<char>,
)
    requires
        m == Map::<Seq<char>, Field>::empty().insert("cpuset_name"@, Field::Text(name)).insert(
            "config_file"@,
            Field::Text(path),
        ),
    ensures
        match web_api::change_asked(Some(m)) {
            Ok(c) => {
                &&& c == ChangeView {
                    mode: None,
                    interval: None,
                    cpuset_name: Some(name),
                    config_file: Some(path),
                }
                &&& 0 < name.len() && text::byte_len(name) < 64 && !name.contains('/')
                &&& 0 < path.len() && text::byte_len(path) < 256
            },
            Err(e) => e == if name.len() == 0 || text::byte_len(name) >= 64 || name.contains('/')
                || exists|i: int| 0 <= i < name.len() && #[trigger] name[i] <= ' ' {
                ApiError::BadCpusetName
            } else {
                ApiError::BadPath
            },
        },
{
    lemma_keys();
    assert forall|i: int| 0 <= i < name.len() implies settings::is_blank(#[trigger] name[i]) == (
    name[i] <= ' ') by {
        lemma_blank(name[i]);
    }
    if !settings::is_valid_name(name) && 0 < name.len() && text::byte_len(name) < 64
        && !name.contains('/') {
        let i = choose|i: int| 0 <= i < name.len() && settings::is_blank(#[trigger] name[i]);
        assert(name[i] <= ' ');
    }
    if settings::is_valid_name(name) {
        assert forall|i: int| 0 <= i < name.len() implies !(#[trigger] name[i] <= ' ') by {
            assert(!settings::is_blank(name[i]));
        }
    }
}

proof fn lemma_blank(c: char)
    ensures
        settings::is_blank(c) == (c <= ' '),
{
}

/// A change that is in force gives what it names its new value and leaves the
/// rest; a new mode is passed on, and a new directory or file reloads the rules.
pub proof fn changes_are_in_force(
    before: WebState,
    c: ChangeView,
    cpuset_enabled: bool,
    after: WebState,
    r: ChangeActions,
)
    requires
        web_api::is_in_force(before, c, cpuset_enabled, after, r),
    ensures
        c.mode matches Some(m) ==> after.mode == m && r.notify_mode,
        c.mode is None ==> after.mode == before.mode && !r.notify_mode,
        c.interval matches Some(n) ==> after.interval == n,
        c.interval is None ==> after.interval == before.interval,
        c.config_file matches Some(p) ==> after.config_file@ == p && r.make_file && r.reloads >= 1,
        c.config_file is None ==> after.config_file@ == before.config_file@ && !r.make_file,
        c.cpuset_name matches Some(n) ==> r.reloads >= 1 && r.make_cpuset == cpuset_enabled && (0
            < n.len() && !n.contains('/') ==> cpuset::root_path(after.root) == "/dev/cpuset/"@ + n),
        c.cpuset_name is None ==> cpuset::root_path(after.root) == cpuset::root_path(before.root)
            && !r.make_cpuset,
        c.cpuset_name is None && c.config_file is None ==> r.reloads == 0,
{
}

/// A request for refresh rates sets the seconds and the rates that it names,
/// and has 30 seconds, 120 Hz and 60 Hz for what it leaves out. Seconds outside
/// 1 to 3600, and other rates, are refused.
pub proof fn rates_are_set_as_asked(
    m: Map<Seq<char>, Field>,
    timeout: u64,
    active: Seq<char>,
    idle: Seq<char>,
)
    requires
        has_text(m, "active"@, active),
        has_text(m, "idle"@, idle),
        m.contains_key("timeout"@),
        m["timeout"@] == Field::Number(timeout),
        timeout <= u32::MAX,
    ensures
        web_api::refresh_asked(Some(m)) == if timeout < 1 || timeout > 3600 {
            Err::<RefreshSetView, ApiError>(ApiError::BadTimeout)
        } else if (active == "120"@ || active == "90"@ || active == "60"@) && (idle == "120"@ || idle
            == "90"@ || idle == "60"@) {
            Ok::<RefreshSetView, ApiError>(RefreshSetView { timeout: timeout as int, active, idle })
        } else {
            Err::<RefreshSetView, ApiError>(ApiError::BadRate)
        },
        web_api::refresh_asked(Some(Map::empty())) == Ok::<RefreshSetView, ApiError>(
            RefreshSetView { timeout: 30, active: "120"@, idle: "60"@ },
        ),
{
}

/// A request for the rates of an application sets them for the package that it
/// names, under the same conditions as the global ones; a request to take them
/// away is about the package that it names, too.
pub proof fn application_rates_are_set_as_asked(m: Map<Seq<char>, Field>, pkg: Seq<char>)
    requires
        has_text(m, "pkg"@, pkg),
        is_name(pkg, 128),
    ensures
        web_api::app_asked(Some(m)) == (match web_api::refresh_asked(Some(m)) {
            Ok(s) => Ok::<(Seq<char>, RefreshSetView), ApiError>((pkg, s)),
            Err(e) => Err::<(Seq<char>, RefreshSetView), ApiError>(e),
        }),
        web_api::app_delete_asked(Some(m)) == Ok::<Seq<char>, ApiError>(pkg),
{
    lemma_name(pkg, 128);
}

/// A request whose body is no JSON is refused, whatever it asks for.
pub proof fn other_bodies_are_refused(topo: Option<CpuTopology>)
    ensures
        web_api::rule_asked(None, topo) == Err::<RuleCallView, ApiError>(ApiError::BadJson),
        web_api::delete_asked(None) == Err::<RuleCallView, ApiError>(ApiError::BadJson),
        web_api::rename_asked(None) == Err::<Option<RuleCallView>, ApiError>(ApiError::BadJson),
        web_api::suggest_asked(None) == Err::<SuggestView, ApiError>(ApiError::BadJson),
        web_api::change_asked(None) == Err::<ChangeView, ApiError>(ApiError::BadJson),
        web_api::refresh_asked(None) == Err::<RefreshSetView, ApiError>(ApiError::BadJson),
        web_api::app_asked(None) == Err::<(Seq<char>, RefreshSetView), ApiError>(ApiError::BadJson),
        web_api::app_delete_asked(None) == Err::<Seq<char>, ApiError>(ApiError::BadJson),
        web_api::status_of(ApiError::BadJson) == 400,
{
}

/// What was done is reported as done, and nothing else is: what is not there
/// with 404, what stands in the way with 409, and what could not be written with
/// 500.
pub proof fn edits_are_reported(e: RuleEdit)
    ensures
        web_api::upsert_answer(e) is Ok <==> e == RuleEdit::Done,
        web_api::delete_answer(e) is Ok <==> e == RuleEdit::Done,
        web_api::rename_answer(e) is Ok <==> e == RuleEdit::Done,
        web_api::upsert_answer(e) matches Err(x) ==> web_api::status_of(x) == if e
            == RuleEdit::Malformed {
            409u16
        } else {
            500u16
        },
        web_api::delete_answer(e) matches Err(x) ==> web_api::status_of(x) == match e {
            RuleEdit::NotFound => 404u16,
            RuleEdit::Conflict | RuleEdit::Malformed => 409u16,
            _ => 500u16,
        },
        web_api::rename_answer(e) matches Err(x) ==> web_api::status_of(x) == match e {
            RuleEdit::NotFound => 404u16,
            RuleEdit::Conflict | RuleEdit::Malformed => 409u16,
            _ => 500u16,
        },
        web_api::status_of(ApiError::Forbidden) == 403,
        web_api::status_of(ApiError::NotFound) == 404,
{
}

} // verus!
