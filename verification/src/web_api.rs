//! What the requests of the web front end change, and when they are refused.
use vstd::prelude::*;

use crate::config;
use crate::config::AppConfig;
use crate::cpuset;
use crate::cpuset::CpuTopology;
use crate::grammar;
use crate::json;
use crate::json::Field;
use crate::settings;
use crate::text;

verus! {

broadcast use vstd::string::group_string_axioms;

/// Why a request is refused, or has failed.
#[derive(Clone, Copy, Debug, PartialEq, Eq, Structural)]
pub enum ApiError {
    Forbidden,
    NotFound,
    BadJson,
    MissingRuleFields,
    MissingPkg,
    MissingNames,
    NotReady,
    BadName,
    BracedPkg,
    BracedTarget,
    BadSpec,
    Malformed,
    WriteFailed,
    NoSuchRule,
    StateConflict,
    NoSuchPkg,
    TargetTaken,
    LongQuery,
    BadMode,
    BadInterval,
    BadCpusetName,
    BadPath,
    BadTimeout,
    BadRate,
    BadPkg,
    EmptyPkg,
    DeleteFailed,
}

/// The status of an error.
pub open spec fn status_of(e: ApiError) -> u16 {
    match e {
        ApiError::Forbidden => 403,
        ApiError::NotFound | ApiError::NoSuchRule | ApiError::NoSuchPkg => 404,
        ApiError::Malformed | ApiError::StateConflict | ApiError::TargetTaken => 409,
        ApiError::NotReady | ApiError::WriteFailed | ApiError::DeleteFailed => 500,
        _ => 400,
    }
}

/// The words for an error.
pub open spec fn message_of(e: ApiError) -> Seq<char> {
    match e {
        ApiError::Forbidden => "forbidden"@,
        ApiError::NotFound => "not found"@,
        ApiError::BadJson => "请求体不是合法 JSON"@,
        ApiError::MissingRuleFields => "缺少 pkg 或 cpus 字段"@,
        ApiError::MissingPkg => "缺少 pkg 字段"@,
        ApiError::MissingNames => "缺少 old 或 new 字段"@,
        ApiError::NotReady => "配置未就绪"@,
        ApiError::BadName => "名称含有非法字符"@,
        ApiError::BracedPkg => "包名含 { 且以 } 结尾时不支持包级规则，可改用线程规则"@,
        ApiError::BracedTarget => "包名含 { 且以 } 结尾时不可作为重命名目标"@,
        ApiError::BadSpec => "无效的 CPU 规格"@,
        ApiError::Malformed => "配置文件存在未闭合块，请修复后重试"@,
        ApiError::WriteFailed => "配置文件写入失败"@,
        ApiError::NoSuchRule => "规则不存在"@,
        ApiError::StateConflict => "状态冲突"@,
        ApiError::NoSuchPkg => "原包名不存在"@,
        ApiError::TargetTaken => "目标包名已存在规则"@,
        ApiError::LongQuery => "q 过长"@,
        ApiError::BadMode => "无效的工作模式"@,
        ApiError::BadInterval => "间隔需在 1-3600 秒之间"@,
        ApiError::BadCpusetName => "无效的 cpuset 目录名"@,
        ApiError::BadPath => "无效的配置文件路径"@,
        ApiError::BadTimeout => "超时时间需在 1-3600 秒之间"@,
        ApiError::BadRate => "刷新率仅支持 120/90/60"@,
        ApiError::BadPkg => "无效的包名"@,
        ApiError::EmptyPkg => "包名不能为空"@,
        ApiError::DeleteFailed => "删除失败"@,
    }
}

/// The status and the words of an answer that reports an error.
pub fn err_json(e: ApiError) -> (r: (u16, &'static str))
    ensures
        r.0 == status_of(e),
        r.1@ == message_of(e),
{
    match e {
        ApiError::Forbidden => (403, "forbidden"),
        ApiError::NotFound => (404, "not found"),
        ApiError::BadJson => (400, "请求体不是合法 JSON"),
        ApiError::MissingRuleFields => (400, "缺少 pkg 或 cpus 字段"),
        ApiError::MissingPkg => (400, "缺少 pkg 字段"),
        ApiError::MissingNames => (400, "缺少 old 或 new 字段"),
        ApiError::NotReady => (500, "配置未就绪"),
        ApiError::BadName => (400, "名称含有非法字符"),
        ApiError::BracedPkg => (400, "包名含 { 且以 } 结尾时不支持包级规则，可改用线程规则"),
        ApiError::BracedTarget => (400, "包名含 { 且以 } 结尾时不可作为重命名目标"),
        ApiError::BadSpec => (400, "无效的 CPU 规格"),
        ApiError::Malformed => (409, "配置文件存在未闭合块，请修复后重试"),
        ApiError::WriteFailed => (500, "配置文件写入失败"),
        ApiError::NoSuchRule => (404, "规则不存在"),
        ApiError::StateConflict => (409, "状态冲突"),
        ApiError::NoSuchPkg => (404, "原包名不存在"),
        ApiError::TargetTaken => (409, "目标包名已存在规则"),
        ApiError::LongQuery => (400, "q 过长"),
        ApiError::BadMode => (400, "无效的工作模式"),
        ApiError::BadInterval => (400, "间隔需在 1-3600 秒之间"),
        ApiError::BadCpusetName => (400, "无效的 cpuset 目录名"),
        ApiError::BadPath => (400, "无效的配置文件路径"),
        ApiError::BadTimeout => (400, "超时时间需在 1-3600 秒之间"),
        ApiError::BadRate => (400, "刷新率仅支持 120/90/60"),
        ApiError::BadPkg => (400, "无效的包名"),
        ApiError::EmptyPkg => (400, "包名不能为空"),
        ApiError::DeleteFailed => (500, "删除失败"),
    }
}

/// A name that a rule can be written with: not blank, not too long, and
/// without control characters and comment marks.
pub open spec fn is_token(s: Seq<char>, max: nat) -> bool {
    let t = text::trimmed(s);
    &&& 0 < t.len()
    &&& text::byte_len(t) < max
    &&& config::is_printable(t)
    &&& !t.contains('#')
    &&& !text::holds(t, "//"@)
}

/// Whether a rule can be written with a name.
pub fn token_ok(s: &str, max: usize) -> (r: bool)
    ensures
        r == is_token(s@, max as nat),
{
    let t = text::trim(s);
    !t.is_empty() && text::byte_length(t) < max && config::printable(t) && !text::has_char(t, '#')
        && !text::contains(t, "//")
}

/// The name does not look like a rule for a thread.
pub open spec fn is_unbraced(pkg: Seq<char>) -> bool {
    !(pkg.contains('{') && text::ends(pkg, "}"@))
}

/// Whether the name does not look like a rule for a thread.
pub fn pkg_shape_ok(pkg: &str) -> (r: bool)
    ensures
        r == is_unbraced(pkg@),
{
    !(text::has_char(pkg, '{') && text::ends_with(pkg, "}"))
}

/// A change of the rule file.
pub enum RuleCall {
    /// Set the rule of a package, or of a thread of it.
    Upsert { pkg: String, thread: String, cpus: String },
    /// Remove the rule of a package, or of a thread of it.
    Delete { pkg: String, thread: String },
    /// Remove all rules of a package.
    DeletePkg { pkg: String },
    /// Give the rules of a package to another one.
    Rename { old_name: String, new_name: String },
}

/// A change of the rule file, as contracts speak of it.
#[verifier::ext_equal]
pub ghost enum RuleCallView {
    Upsert { pkg: Seq<char>, thread: Seq<char>, cpus: Seq<char> },
    Delete { pkg: Seq<char>, thread: Seq<char> },
    DeletePkg { pkg: Seq<char> },
    Rename { old_name: Seq<char>, new_name: Seq<char> },
}

impl View for RuleCall {
    type V = RuleCallView;

    open spec fn view(&self) -> RuleCallView {
        match self {
            RuleCall::Upsert { pkg, thread, cpus } => RuleCallView::Upsert {
                pkg: pkg@,
                thread: thread@,
                cpus: cpus@,
            },
            RuleCall::Delete { pkg, thread } => RuleCallView::Delete { pkg: pkg@, thread: thread@ },
            RuleCall::DeletePkg { pkg } => RuleCallView::DeletePkg { pkg: pkg@ },
            RuleCall::Rename { old_name, new_name } => RuleCallView::Rename {
                old_name: old_name@,
                new_name: new_name@,
            },
        }
    }
}

/// What came of a change of the rule file.
#[derive(Clone, Copy, Debug, PartialEq, Eq, Structural)]
pub enum RuleEdit {
    Done,
    NotFound,
    Conflict,
    /// A block in the file is not closed.
    Malformed,
    IoErr,
}

/// A text that may be missing.
pub open spec fn opt_text(s: Option<&str>) -> Option<Seq<char>> {
    match s {
        Some(t) => Some(t@),
        None => None,
    }
}

/// A text without white space around it; empty where it is missing.
pub open spec fn trimmed_or_none(s: Option<Seq<char>>) -> Seq<char> {
    match s {
        Some(t) => text::trimmed(t),
        None => seq![],
    }
}

/// The value names CPUs that the machine has.
pub open spec fn is_usable_spec(cpus: Seq<char>, topo: CpuTopology) -> bool {
    &&& 0 < cpus.len()
    &&& text::byte_len(cpus) < 64
    &&& grammar::has_spec_shape(cpus)
    &&& cpuset::spec_cpus(cpus, topo) != Set::<int>::empty()
}

/// What a request to set a rule comes to.
pub open spec fn rule_request(
    pkg: Option<Seq<char>>,
    cpus: Option<Seq<char>>,
    thread: Option<Seq<char>>,
    topo: Option<CpuTopology>,
) -> Result<RuleCallView, ApiError> {
    let p = trimmed_or_none(pkg);
    let c = trimmed_or_none(cpus);
    let t = trimmed_or_none(thread);
    if pkg is None || cpus is None {
        Err(ApiError::MissingRuleFields)
    } else if topo is None {
        Err(ApiError::NotReady)
    } else if !is_token(p, grammar::MAX_PKG_LEN as nat) || (t.len() > 0 && !is_token(
        t,
        grammar::MAX_THREAD_LEN as nat,
    )) {
        Err(ApiError::BadName)
    } else if t.len() == 0 && !is_unbraced(p) {
        Err(ApiError::BracedPkg)
    } else if !is_usable_spec(c, topo->0) {
        Err(ApiError::BadSpec)
    } else {
        Ok(RuleCallView::Upsert { pkg: p, thread: t, cpus: c })
    }
}

/// What a call comes to, as contracts speak of it.
pub open spec fn call_view(r: Result<RuleCall, ApiError>) -> Result<RuleCallView, ApiError> {
    match r {
        Ok(c) => Ok(c@),
        Err(e) => Err(e),
    }
}

fn trim_or_none<'a>(s: Option<&'a str>, empty: &'a str) -> (r: &'a str)
    requires
        empty@.len() == 0,
    ensures
        r@ == trimmed_or_none(opt_text(s)),
{
    match s {
        Some(t) => text::trim(t),
        None => {
            assert(empty@ =~= Seq::<char>::empty());
            empty
        },
    }
}

/// What a request to set a rule comes to, by its fields.
pub fn check_rule(
    pkg: Option<&str>,
    cpus: Option<&str>,
    thread: Option<&str>,
    topo: Option<&CpuTopology>,
) -> (r: Result<RuleCall, ApiError>)
    ensures
        call_view(r) == rule_request(
            opt_text(pkg),
            opt_text(cpus),
            opt_text(thread),
            match topo {
                Some(t) => Some(*t),
                None => None,
            },
        ),
{
    let empty = String::new();
    if pkg.is_none() || cpus.is_none() {
        return Err(ApiError::MissingRuleFields);
    }
    let p = trim_or_none(pkg, empty.as_str());
    let c = trim_or_none(cpus, empty.as_str());
    let t = trim_or_none(thread, empty.as_str());
    let topo: &CpuTopology = match topo {
        Some(x) => x,
        None => {
            return Err(ApiError::NotReady);
        },
    };
    if !token_ok(p, grammar::MAX_PKG_LEN) || (!t.is_empty() && !token_ok(
        t,
        grammar::MAX_THREAD_LEN,
    )) {
        return Err(ApiError::BadName);
    }
    if t.is_empty() && !pkg_shape_ok(p) {
        return Err(ApiError::BracedPkg);
    }
    if c.is_empty() || text::byte_length(c) >= 64 || !grammar::spec_like(c) {
        return Err(ApiError::BadSpec);
    }
    let set = cpuset::parse_cpu_spec(c, topo);
    if set.count() == 0 {
        assert(set@ =~= Set::<int>::empty());
        return Err(ApiError::BadSpec);
    }
    assert(set@ != Set::<int>::empty());
    Ok(RuleCall::Upsert { pkg: p.to_owned(), thread: t.to_owned(), cpus: c.to_owned() })
}

/// What a request to set a rule comes to, by the members of its body.
pub open spec fn rule_asked(
    members: Option<Map<Seq<char>, Field>>,
    topo: Option<CpuTopology>,
) -> Result<RuleCallView, ApiError> {
    match members {
        Some(m) => rule_request(
            json::text_of(m, "pkg"@),
            json::text_of(m, "cpus"@),
            json::text_of(m, "thread"@),
            topo,
        ),
        None => Err(ApiError::BadJson),
    }
}

/// What a request to set a rule comes to.
pub fn rule_api(body: &Vec<u8>, cfg: Option<&AppConfig>) -> (r: Result<RuleCall, ApiError>)
    ensures
        call_view(r) == rule_asked(
            json::json_members(body@),
            match cfg {
                Some(c) => Some(c.topo),
                None => None,
            },
        ),
{
    let v = match json::json_of(body) {
        Some(v) => v,
        None => {
            return Err(ApiError::BadJson);
        },
    };
    let topo: Option<&CpuTopology> = match cfg {
        Some(c) => Some(&c.topo),
        None => None,
    };
    check_rule(
        json::text_member(&v, "pkg"),
        json::text_member(&v, "cpus"),
        json::text_member(&v, "thread"),
        topo,
    )
}

/// What setting a rule came to.
pub open spec fn upsert_answer(e: RuleEdit) -> Result<(), ApiError> {
    match e {
        RuleEdit::Done => Ok(()),
        RuleEdit::Malformed => Err(ApiError::Malformed),
        _ => Err(ApiError::WriteFailed),
    }
}

/// What setting a rule came to.
pub fn upsert_reply(e: RuleEdit) -> (r: Result<(), ApiError>)
    ensures
        r == upsert_answer(e),
{
    match e {
        RuleEdit::Done => Ok(()),
        RuleEdit::Malformed => Err(ApiError::Malformed),
        _ => Err(ApiError::WriteFailed),
    }
}

/// What a request to remove rules comes to.
pub open spec fn delete_request(
    pkg: Option<Seq<char>>,
    thread: Option<Seq<char>>,
    all: Option<bool>,
) -> Result<RuleCallView, ApiError> {
    match pkg {
        None => Err(ApiError::MissingPkg),
        Some(p) => if all == Some(true) {
            Ok(RuleCallView::DeletePkg { pkg: text::trimmed(p) })
        } else {
            Ok(RuleCallView::Delete { pkg: text::trimmed(p), thread: trimmed_or_none(thread) })
        },
    }
}

/// What a request to remove rules comes to, by its fields.
pub fn check_delete(pkg: Option<&str>, thread: Option<&str>, all: Option<bool>) -> (r: Result<
    RuleCall,
    ApiError,
>)
    ensures
        call_view(r) == delete_request(opt_text(pkg), opt_text(thread), all),
{
    let empty = String::new();
    let p = match pkg {
        Some(p) => text::trim(p),
        None => {
            return Err(ApiError::MissingPkg);
        },
    };
    let whole: bool = match all {
        Some(b) => b,
        None => false,
    };
    if whole {
        Ok(RuleCall::DeletePkg { pkg: p.to_owned() })
    } else {
        let t = trim_or_none(thread, empty.as_str());
        Ok(RuleCall::Delete { pkg: p.to_owned(), thread: t.to_owned() })
    }
}

/// What a request to remove rules comes to, by the members of its body.
pub open spec fn delete_asked(members: Option<Map<Seq<char>, Field>>) -> Result<
    RuleCallView,
    ApiError,
> {
    match members {
        Some(m) => delete_request(
            json::text_of(m, "pkg"@),
            json::text_of(m, "thread"@),
            json::flag_of(m, "all"@),
        ),
        None => Err(ApiError::BadJson),
    }
}

/// What a request to remove rules comes to.
pub fn rule_del_api(body: &Vec<u8>) -> (r: Result<RuleCall, ApiError>)
    ensures
        call_view(r) == delete_asked(json::json_members(body@)),
{
    let v = match json::json_of(body) {
        Some(v) => v,
        None => {
            return Err(ApiError::BadJson);
        },
    };
    check_delete(
        json::text_member(&v, "pkg"),
        json::text_member(&v, "thread"),
        json::flag_member(&v, "all"),
    )
}

/// What removing rules came to.
pub open spec fn delete_answer(e: RuleEdit) -> Result<(), ApiError> {
    match e {
        RuleEdit::Done => Ok(()),
        RuleEdit::NotFound => Err(ApiError::NoSuchRule),
        RuleEdit::Conflict => Err(ApiError::StateConflict),
        RuleEdit::Malformed => Err(ApiError::Malformed),
        RuleEdit::IoErr => Err(ApiError::WriteFailed),
    }
}

/// What removing rules came to.
pub fn delete_reply(e: RuleEdit) -> (r: Result<(), ApiError>)
    ensures
        r == delete_answer(e),
{
    match e {
        RuleEdit::Done => Ok(()),
        RuleEdit::NotFound => Err(ApiError::NoSuchRule),
        RuleEdit::Conflict => Err(ApiError::StateConflict),
        RuleEdit::Malformed => Err(ApiError::Malformed),
        RuleEdit::IoErr => Err(ApiError::WriteFailed),
    }
}

/// What a request to rename a package comes to; nothing where the name is the
/// same.
pub open spec fn rename_request(from: Option<Seq<char>>, to: Option<Seq<char>>) -> Result<
    Option<RuleCallView>,
    ApiError,
> {
    let a = trimmed_or_none(from);
    let b = trimmed_or_none(to);
    let max = grammar::MAX_PKG_LEN as nat;
    if from is None || to is None {
        Err(ApiError::MissingNames)
    } else if !is_token(a, max) || !is_token(b, max) {
        Err(ApiError::BadName)
    } else if !is_unbraced(b) {
        Err(ApiError::BracedTarget)
    } else if a == b {
        Ok(None)
    } else {
        Ok(Some(RuleCallView::Rename { old_name: a, new_name: b }))
    }
}

/// What a renaming comes to, as contracts speak of it.
pub open spec fn opt_call_view(r: Result<Option<RuleCall>, ApiError>) -> Result<
    Option<RuleCallView>,
    ApiError,
> {
    match r {
        Ok(Some(c)) => Ok(Some(c@)),
        Ok(None) => Ok(None),
        Err(e) => Err(e),
    }
}

/// What a request to rename a package comes to, by its fields.
pub fn check_rename(from: Option<&str>, to: Option<&str>) -> (r: Result<
    Option<RuleCall>,
    ApiError,
>)
    ensures
        opt_call_view(r) == rename_request(opt_text(from), opt_text(to)),
{
    let empty = String::new();
    if from.is_none() || to.is_none() {
        return Err(ApiError::MissingNames);
    }
    let a = trim_or_none(from, empty.as_str());
    let b = trim_or_none(to, empty.as_str());
    if !token_ok(a, grammar::MAX_PKG_LEN) || !token_ok(b, grammar::MAX_PKG_LEN) {
        return Err(ApiError::BadName);
    }
    if !pkg_shape_ok(b) {
        return Err(ApiError::BracedTarget);
    }
    if text::same(a, b) {
        return Ok(None);
    }
    Ok(Some(RuleCall::Rename { old_name: a.to_owned(), new_name: b.to_owned() }))
}

/// What a request to rename a package comes to, by the members of its body.
pub open spec fn rename_asked(members: Option<Map<Seq<char>, Field>>) -> Result<
    Option<RuleCallView>,
    ApiError,
> {
    match members {
        Some(m) => rename_request(json::text_of(m, "old"@), json::text_of(m, "new"@)),
        None => Err(ApiError::BadJson),
    }
}

/// What a request to rename a package comes to.
pub fn rule_rename_api(body: &Vec<u8>) -> (r: Result<Option<RuleCall>, ApiError>)
    ensures
        opt_call_view(r) == rename_asked(json::json_members(body@)),
{
    let v = match json::json_of(body) {
        Some(v) => v,
        None => {
            return Err(ApiError::BadJson);
        },
    };
    check_rename(json::text_member(&v, "old"), json::text_member(&v, "new"))
}

/// What renaming a package came to.
pub open spec fn rename_answer(e: RuleEdit) -> Result<(), ApiError> {
    match e {
        RuleEdit::Done => Ok(()),
        RuleEdit::NotFound => Err(ApiError::NoSuchPkg),
        RuleEdit::Conflict => Err(ApiError::TargetTaken),
        RuleEdit::Malformed => Err(ApiError::Malformed),
        RuleEdit::IoErr => Err(ApiError::WriteFailed),
    }
}

/// What renaming a package came to.
pub fn rename_reply(e: RuleEdit) -> (r: Result<(), ApiError>)
    ensures
        r == rename_answer(e),
{
    match e {
        RuleEdit::Done => Ok(()),
        RuleEdit::NotFound => Err(ApiError::NoSuchPkg),
        RuleEdit::Conflict => Err(ApiError::TargetTaken),
        RuleEdit::Malformed => Err(ApiError::Malformed),
        RuleEdit::IoErr => Err(ApiError::WriteFailed),
    }
}

/// What suggestions are asked for.
pub enum SuggestCall {
    /// Packages that match a text.
    Packages(String),
    /// Threads of a package that match a text.
    Threads(String, String),
}

/// What suggestions are asked for, as contracts speak of it.
#[verifier::ext_equal]
pub ghost enum SuggestView {
    Packages(Seq<char>),
    Threads(Seq<char>, Seq<char>),
}

impl View for SuggestCall {
    type V = SuggestView;

    open spec fn view(&self) -> SuggestView {
        match self {
            SuggestCall::Packages(q) => SuggestView::Packages(q@),
            SuggestCall::Threads(p, q) => SuggestView::Threads(p@, q@),
        }
    }
}

/// What a request for suggestions comes to: with a package its threads, without
/// one the packages.
pub open spec fn suggest_request(q: Option<Seq<char>>, pkg: Option<Seq<char>>) -> Result<
    SuggestView,
    ApiError,
> {
    let x = trimmed_or_none(q);
    let p = trimmed_or_none(pkg);
    if text::byte_len(x) > 64 {
        Err(ApiError::LongQuery)
    } else if p.len() == 0 {
        Ok(SuggestView::Packages(x))
    } else if !is_token(p, grammar::MAX_PKG_LEN as nat) {
        Err(ApiError::BadName)
    } else {
        Ok(SuggestView::Threads(p, x))
    }
}

/// What suggestions come to, as contracts speak of it.
pub open spec fn suggest_view(r: Result<SuggestCall, ApiError>) -> Result<SuggestView, ApiError> {
    match r {
        Ok(c) => Ok(c@),
        Err(e) => Err(e),
    }
}

/// What a request for suggestions comes to, by its fields.
pub fn check_suggest(q: Option<&str>, pkg: Option<&str>) -> (r: Result<SuggestCall, ApiError>)
    ensures
        suggest_view(r) == suggest_request(opt_text(q), opt_text(pkg)),
{
    let empty = String::new();
    let x = trim_or_none(q, empty.as_str());
    if text::byte_length(x) > 64 {
        return Err(ApiError::LongQuery);
    }
    let p = trim_or_none(pkg, empty.as_str());
    if p.is_empty() {
        return Ok(SuggestCall::Packages(x.to_owned()));
    }
    if !token_ok(p, grammar::MAX_PKG_LEN) {
        return Err(ApiError::BadName);
    }
    Ok(SuggestCall::Threads(p.to_owned(), x.to_owned()))
}

/// What a request for suggestions comes to, by the members of its body.
pub open spec fn suggest_asked(members: Option<Map<Seq<char>, Field>>) -> Result<
    SuggestView,
    ApiError,
> {
    match members {
        Some(m) => suggest_request(json::text_of(m, "q"@), json::text_of(m, "pkg"@)),
        None => Err(ApiError::BadJson),
    }
}

/// What a request for suggestions comes to.
pub fn suggest_api(body: &Vec<u8>) -> (r: Result<SuggestCall, ApiError>)
    ensures
        suggest_view(r) == suggest_asked(json::json_members(body@)),
{
    let v = match json::json_of(body) {
        Some(v) => v,
        None => {
            return Err(ApiError::BadJson);
        },
    };
    check_suggest(json::text_member(&v, "q"), json::text_member(&v, "pkg"))
}

/// A change of the settings.
pub struct ConfigChange {
    pub mode: Option<u8>,
    pub interval: Option<u64>,
    pub cpuset_name: Option<String>,
    pub config_file: Option<String>,
}

/// A change of the settings, as contracts speak of it.
#[verifier::ext_equal]
pub ghost struct ChangeView {
    pub mode: Option<u8>,
    pub interval: Option<u64>,
    pub cpuset_name: Option<Seq<char>>,
    pub config_file: Option<Seq<char>>,
}

/// An owned text that may be missing.
pub open spec fn opt_string(s: Option<String>) -> Option<Seq<char>> {
    match s {
        Some(t) => Some(t@),
        None => None,
    }
}

impl View for ConfigChange {
    type V = ChangeView;

    open spec fn view(&self) -> ChangeView {
        ChangeView {
            mode: self.mode,
            interval: self.interval,
            cpuset_name: opt_string(self.cpuset_name),
            config_file: opt_string(self.config_file),
        }
    }
}

/// What a request to change the settings comes to.
pub open spec fn change_request(
    mode: Option<u64>,
    interval: Option<u64>,
    name: Option<Seq<char>>,
    path: Option<Seq<char>>,
) -> Result<ChangeView, ApiError> {
    if mode matches Some(m) && m > 2 {
        Err(ApiError::BadMode)
    } else if interval matches Some(n) && !(1 <= n <= settings::MAX_INTERVAL) {
        Err(ApiError::BadInterval)
    } else if name matches Some(s) && !settings::is_valid_name(s) {
        Err(ApiError::BadCpusetName)
    } else if path matches Some(s) && !settings::is_valid_path(s) {
        Err(ApiError::BadPath)
    } else {
        Ok(
            ChangeView {
                mode: match mode {
                    Some(m) => Some(m as u8),
                    None => None,
                },
                interval,
                cpuset_name: name,
                config_file: path,
            },
        )
    }
}

/// What a change comes to, as contracts speak of it.
pub open spec fn change_view(r: Result<ConfigChange, ApiError>) -> Result<ChangeView, ApiError> {
    match r {
        Ok(c) => Ok(c@),
        Err(e) => Err(e),
    }
}

fn own(s: Option<&str>) -> (r: Option<String>)
    ensures
        opt_string(r) == opt_text(s),
{
    match s {
        Some(t) => Some(t.to_owned()),
        None => None,
    }
}

/// What a request to change the settings comes to, by its fields.
pub fn check_change(
    mode: Option<u64>,
    interval: Option<u64>,
    name: Option<&str>,
    path: Option<&str>,
) -> (r: Result<ConfigChange, ApiError>)
    ensures
        change_view(r) == change_request(mode, interval, opt_text(name), opt_text(path)),
{
    if let Some(m) = mode {
        if m > 2 {
            return Err(ApiError::BadMode);
        }
    }
    if let Some(n) = interval {
        if n < 1 || n > settings::MAX_INTERVAL {
            return Err(ApiError::BadInterval);
        }
    }
    if let Some(s) = name {
        if !settings::valid_name(s) {
            return Err(ApiError::BadCpusetName);
        }
    }
    if let Some(s) = path {
        if !settings::valid_path(s) {
            return Err(ApiError::BadPath);
        }
    }
    Ok(
        ConfigChange {
            mode: match mode {
                Some(m) => Some(m as u8),
                None => None,
            },
            interval,
            cpuset_name: own(name),
            config_file: own(path),
        },
    )
}

/// What a request to change the settings comes to, by the members of its body.
pub open spec fn change_asked(members: Option<Map<Seq<char>, Field>>) -> Result<
    ChangeView,
    ApiError,
> {
    match members {
        Some(m) => change_request(
            json::number_of(m, "mode"@),
            json::number_of(m, "interval"@),
            json::text_of(m, "cpuset_name"@),
            json::text_of(m, "config_file"@),
        ),
        None => Err(ApiError::BadJson),
    }
}

/// What a request to change the settings comes to.
pub fn config_set_api(body: &Vec<u8>) -> (r: Result<ConfigChange, ApiError>)
    ensures
        change_view(r) == change_asked(json::json_members(body@)),
{
    let v = match json::json_of(body) {
        Some(v) => v,
        None => {
            return Err(ApiError::BadJson);
        },
    };
    check_change(
        json::number_member(&v, "mode"),
        json::number_member(&v, "interval"),
        json::text_member(&v, "cpuset_name"),
        json::text_member(&v, "config_file"),
    )
}

/// What the front end can change while the daemon runs.
pub struct WebState {
    pub mode: u8,
    pub interval: u64,
    pub root: cpuset::CpusetRoot,
    pub config_file: String,
}

/// What a change of the settings asks for besides.
#[derive(Clone, Copy, Debug, PartialEq, Eq, Structural)]
pub struct ChangeActions {
    /// Tell the main loop that the mode has changed.
    pub notify_mode: bool,
    /// Make the new cpuset directory.
    pub make_cpuset: bool,
    /// Make the new rule file, if there is none.
    pub make_file: bool,
    /// Reload the configuration so many times.
    pub reloads: u8,
}

/// The change is in force: what it names has its new value, everything else is
/// as it was, and what has to follow is asked for.
pub open spec fn is_in_force(
    before: WebState,
    change: ChangeView,
    cpuset_enabled: bool,
    after: WebState,
    r: ChangeActions,
) -> bool {
    &&& after.mode == (match change.mode {
        Some(m) => m,
        None => before.mode,
    })
    &&& after.interval == (match change.interval {
        Some(n) => n,
        None => before.interval,
    })
    &&& after.config_file@ == (match change.config_file {
        Some(p) => p,
        None => before.config_file@,
    })
    &&& cpuset::root_path(after.root) == (match change.cpuset_name {
        Some(n) => if cpuset::usable_dir_name(n) {
            "/dev/cpuset/"@ + n
        } else {
            cpuset::root_path(before.root)
        },
        None => cpuset::root_path(before.root),
    })
    &&& r.notify_mode == change.mode is Some
    &&& r.make_cpuset == (change.cpuset_name is Some && cpuset_enabled)
    &&& r.make_file == change.config_file is Some
    &&& r.reloads == (if change.cpuset_name is Some {
        1int
    } else {
        0
    }) + (if change.config_file is Some {
        1int
    } else {
        0
    })
}

/// Puts a change of the settings in force; the settings are then to be saved.
pub fn apply_change(st: &mut WebState, change: &ConfigChange, cpuset_enabled: bool) -> (r:
    ChangeActions)
    ensures
        is_in_force(*old(st), change@, cpuset_enabled, *final(st), r),
{
    let mut reloads: u8 = 0;
    if let Some(m) = change.mode {
        st.mode = m;
    }
    if let Some(n) = change.interval {
        st.interval = n;
    }
    if let Some(n) = &change.cpuset_name {
        cpuset::set_base_cpuset(&mut st.root, n.as_str());
        reloads = reloads + 1;
    }
    if let Some(p) = &change.config_file {
        st.config_file = p.clone();
        reloads = reloads + 1;
    }
    ChangeActions {
        notify_mode: change.mode.is_some(),
        make_cpuset: change.cpuset_name.is_some() && cpuset_enabled,
        make_file: change.config_file.is_some(),
        reloads,
    }
}

/// One of the rates that can be set.
pub open spec fn is_rate(s: Seq<char>) -> bool {
    s == "120"@ || s == "90"@ || s == "60"@
}

fn rate_ok(s: &str) -> (r: bool)
    ensures
        r == is_rate(s@),
{
    text::same(s, "120") || text::same(s, "90") || text::same(s, "60")
}

/// Refresh-rate settings: seconds, rate in use, rate at rest.
pub struct RefreshSet {
    pub timeout: i32,
    pub active: String,
    pub idle: String,
}

/// Refresh-rate settings, as contracts speak of them.
#[verifier::ext_equal]
pub ghost struct RefreshSetView {
    pub timeout: int,
    pub active: Seq<char>,
    pub idle: Seq<char>,
}

impl View for RefreshSet {
    type V = RefreshSetView;

    open spec fn view(&self) -> RefreshSetView {
        RefreshSetView { timeout: self.timeout as int, active: self.active@, idle: self.idle@ }
    }
}

/// What a request for refresh-rate settings comes to; what is missing has its
/// default. Of the number of seconds the low 32 bits count.
pub open spec fn refresh_request(
    timeout: Option<u64>,
    active: Option<Seq<char>>,
    idle: Option<Seq<char>>,
) -> Result<RefreshSetView, ApiError> {
    let t = match timeout {
        Some(n) => n as int % 0x1_0000_0000,
        None => 30,
    };
    let a = match active {
        Some(s) => s,
        None => "120"@,
    };
    let i = match idle {
        Some(s) => s,
        None => "60"@,
    };
    if t < 1 || t > 3600 {
        Err(ApiError::BadTimeout)
    } else if !is_rate(a) || !is_rate(i) {
        Err(ApiError::BadRate)
    } else {
        Ok(RefreshSetView { timeout: t, active: a, idle: i })
    }
}

/// What refresh-rate settings come to, as contracts speak of it.
pub open spec fn refresh_view(r: Result<RefreshSet, ApiError>) -> Result<RefreshSetView, ApiError> {
    match r {
        Ok(c) => Ok(c@),
        Err(e) => Err(e),
    }
}

/// What a request for refresh-rate settings comes to, by its fields.
pub fn check_refresh(timeout: Option<u64>, active: Option<&str>, idle: Option<&str>) -> (r: Result<
    RefreshSet,
    ApiError,
>)
    ensures
        refresh_view(r) == refresh_request(timeout, opt_text(active), opt_text(idle)),
{
    let t: u64 = match timeout {
        Some(n) => n % 0x1_0000_0000,
        None => 30,
    };
    let a: &str = match active {
        Some(s) => s,
        None => "120",
    };
    let i: &str = match idle {
        Some(s) => s,
        None => "60",
    };
    if t < 1 || t > 3600 {
        return Err(ApiError::BadTimeout);
    }
    if !rate_ok(a) || !rate_ok(i) {
        return Err(ApiError::BadRate);
    }
    Ok(RefreshSet { timeout: t as i32, active: a.to_owned(), idle: i.to_owned() })
}

/// What a request to change the global refresh-rate settings comes to, by the
/// members of its body.
pub open spec fn refresh_asked(members: Option<Map<Seq<char>, Field>>) -> Result<
    RefreshSetView,
    ApiError,
> {
    match members {
        Some(m) => refresh_request(
            json::number_of(m, "timeout"@),
            json::text_of(m, "active"@),
            json::text_of(m, "idle"@),
        ),
        None => Err(ApiError::BadJson),
    }
}

/// What a request to change the global refresh-rate settings comes to.
pub fn refresh_config_set_api(body: &Vec<u8>) -> (r: Result<RefreshSet, ApiError>)
    ensures
        refresh_view(r) == refresh_asked(json::json_members(body@)),
{
    let v = match json::json_of(body) {
        Some(v) => v,
        None => {
            return Err(ApiError::BadJson);
        },
    };
    check_refresh(
        json::number_member(&v, "timeout"),
        json::text_member(&v, "active"),
        json::text_member(&v, "idle"),
    )
}

/// A package that can have refresh-rate settings.
pub open spec fn is_refresh_pkg(p: Seq<char>) -> bool {
    0 < p.len() && text::byte_len(p) < grammar::MAX_PKG_LEN && config::is_printable(p)
}

/// What a request to give an application a refresh rate comes to.
pub open spec fn app_request(
    pkg: Option<Seq<char>>,
    timeout: Option<u64>,
    active: Option<Seq<char>>,
    idle: Option<Seq<char>>,
) -> Result<(Seq<char>, RefreshSetView), ApiError> {
    match pkg {
        None => Err(ApiError::MissingPkg),
        Some(p) => if !is_refresh_pkg(text::trimmed(p)) {
            Err(ApiError::BadPkg)
        } else {
            match refresh_request(timeout, active, idle) {
                Ok(s) => Ok((text::trimmed(p), s)),
                Err(e) => Err(e),
            }
        },
    }
}

/// What an application's refresh rate comes to, as contracts speak of it.
pub open spec fn app_view(r: Result<(String, RefreshSet), ApiError>) -> Result<
    (Seq<char>, RefreshSetView),
    ApiError,
> {
    match r {
        Ok((p, s)) => Ok((p@, s@)),
        Err(e) => Err(e),
    }
}

/// What a request to give an application a refresh rate comes to, by its
/// fields.
pub fn check_app(
    pkg: Option<&str>,
    timeout: Option<u64>,
    active: Option<&str>,
    idle: Option<&str>,
) -> (r: Result<(String, RefreshSet), ApiError>)
    ensures
        app_view(r) == app_request(opt_text(pkg), timeout, opt_text(active), opt_text(idle)),
{
    let p = match pkg {
        Some(p) => text::trim(p),
        None => {
            return Err(ApiError::MissingPkg);
        },
    };
    if p.is_empty() || text::byte_length(p) >= grammar::MAX_PKG_LEN || !config::printable(p) {
        return Err(ApiError::BadPkg);
    }
    match check_refresh(timeout, active, idle) {
        Ok(s) => Ok((p.to_owned(), s)),
        Err(e) => Err(e),
    }
}

/// What a request to give an application a refresh rate comes to, by the members
/// of its body.
pub open spec fn app_asked(members: Option<Map<Seq<char>, Field>>) -> Result<
    (Seq<char>, RefreshSetView),
    ApiError,
> {
    match members {
        Some(m) => app_request(
            json::text_of(m, "pkg"@),
            json::number_of(m, "timeout"@),
            json::text_of(m, "active"@),
            json::text_of(m, "idle"@),
        ),
        None => Err(ApiError::BadJson),
    }
}

/// What a request to give an application a refresh rate comes to.
pub fn refresh_app_add_api(body: &Vec<u8>) -> (r: Result<(String, RefreshSet), ApiError>)
    ensures
        app_view(r) == app_asked(json::json_members(body@)),
{
    let v = match json::json_of(body) {
        Some(v) => v,
        None => {
            return Err(ApiError::BadJson);
        },
    };
    check_app(
        json::text_member(&v, "pkg"),
        json::number_member(&v, "timeout"),
        json::text_member(&v, "active"),
        json::text_member(&v, "idle"),
    )
}

/// What a request to take an application's refresh rate away comes to.
pub open spec fn app_delete_request(pkg: Option<Seq<char>>) -> Result<Seq<char>, ApiError> {
    match pkg {
        None => Err(ApiError::MissingPkg),
        Some(p) => if text::trimmed(p).len() == 0 {
            Err(ApiError::EmptyPkg)
        } else {
            Ok(text::trimmed(p))
        },
    }
}

/// What taking a refresh rate away comes to, as contracts speak of it.
pub open spec fn name_view(r: Result<String, ApiError>) -> Result<Seq<char>, ApiError> {
    match r {
        Ok(p) => Ok(p@),
        Err(e) => Err(e),
    }
}

/// What a request to take an application's refresh rate away comes to, by its
/// field.
pub fn check_app_delete(pkg: Option<&str>) -> (r: Result<String, ApiError>)
    ensures
        name_view(r) == app_delete_request(opt_text(pkg)),
{
    match pkg {
        None => Err(ApiError::MissingPkg),
        Some(p) => {
            let t = text::trim(p);
            if t.is_empty() {
                Err(ApiError::EmptyPkg)
            } else {
                Ok(t.to_owned())
            }
        },
    }
}

/// What a request to take an application's refresh rate away comes to, by the
/// members of its body.
pub open spec fn app_delete_asked(members: Option<Map<Seq<char>, Field>>) -> Result<
    Seq<char>,
    ApiError,
> {
    match members {
        Some(m) => app_delete_request(json::text_of(m, "pkg"@)),
        None => Err(ApiError::BadJson),
    }
}

/// What a request to take an application's refresh rate away comes to.
pub fn refresh_app_del_api(body: &Vec<u8>) -> (r: Result<String, ApiError>)
    ensures
        name_view(r) == app_delete_asked(json::json_members(body@)),
{
    let v = match json::json_of(body) {
        Some(v) => v,
        None => {
            return Err(ApiError::BadJson);
        },
    };
    check_app_delete(json::text_member(&v, "pkg"))
}

/// A rule that the front end accepts is one that the rule file accepts: read
/// from the file it makes a rule of that package and that thread, for the same
/// CPUs.
pub proof fn accepted_rules_are_rules(
    pkg: Option<Seq<char>>,
    cpus: Option<Seq<char>>,
    thread: Option<Seq<char>>,
    topo: CpuTopology,
)
    requires
        rule_request(pkg, cpus, thread, Some(topo)) is Ok,
    ensures
        config::rule_for(
            topo,
            trimmed_or_none(pkg),
            trimmed_or_none(thread),
            trimmed_or_none(cpus),
        ) == Some(
            (config::RuleView {
                pkg: trimmed_or_none(pkg),
                thread: trimmed_or_none(thread),
                cpus: cpuset::spec_cpus(trimmed_or_none(cpus), topo),
                util_min: -1,
                util_max: -1,
            }),
        ),
{
    let p = trimmed_or_none(pkg);
    let t = trimmed_or_none(thread);
    grammar::specs_name_no_clamps(trimmed_or_none(cpus));
    text::trimming_twice(pkg->0);
    assert(text::trimmed(p) == p);
    if t.len() > 0 {
        text::trimming_twice(thread->0);
        assert(text::trimmed(t) == t);
    } else {
        assert(t =~= Seq::<char>::empty());
        assert(vstd::utf8::encode_utf8(t).len() == 0);
    }
}

} // verus!
