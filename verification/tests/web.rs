//! The settings, the command line and the web front end.
use appopt::cli::{merge, parse_args, Cli};
use appopt::config::{parse_config, AppConfig};
use appopt::cpuset::{base_cpuset, CpuSet, CpuTopology, CpusetRoot};
use appopt::http::{
    closes, dispatch, head_line, parse_head, request_read, response_head, to_lower, HeadStep,
    Request, Route, MAX_HEAD,
};
use appopt::names::NameMap;
use appopt::settings::{
    settings_load, settings_save, valid_name, valid_path, FileRead, GivenSettings, Settings,
};
use appopt::status::{
    mark_web_active, mode_label, notify_mode_switch, web_active, WebActivity, WebStats,
};
use appopt::suggest::{
    application_names, installed_pkgs, rank_top, suggest_pkgs, suggest_threads, thread_comm,
};
use appopt::web_api::{
    apply_change, check_delete, config_set_api, delete_reply, err_json, pkg_shape_ok,
    refresh_app_add_api, refresh_app_del_api, refresh_config_set_api, rename_reply, rule_api,
    rule_del_api, rule_rename_api, suggest_api, token_ok, upsert_reply, ApiError, ConfigChange,
    RuleCall, RuleEdit, SuggestCall, WebState,
};

fn strings(v: &[&str]) -> Vec<String> {
    v.iter().map(|s| String::from(*s)).collect()
}

fn body(s: &str) -> Vec<u8> {
    s.as_bytes().to_vec()
}

fn config() -> AppConfig {
    let mut all = CpuSet::new();
    all.set(0);
    all.set(1);
    let topo = CpuTopology {
        present_cpus: all,
        present_str: String::from("0-1"),
        mems_str: String::from("0"),
        cpuset_enabled: false,
        e_core: all,
        p_core: CpuSet::new(),
        hp_core: CpuSet::new(),
    };
    parse_config("", &topo).0
}

fn status(e: ApiError) -> u16 {
    err_json(e).0
}

#[test]
fn arguments() {
    match parse_args(&strings(&["-c", "a.conf", "-w", "-b", "Games", "-s", "5"])) {
        Cli::Run(o) => {
            assert_eq!(o.config_file.as_deref(), Some("a.conf"));
            assert_eq!(o.cpuset_name.as_deref(), Some("Games"));
            assert_eq!(o.interval, Some(5));
            assert!(o.web);
            let m = merge(&o, &Settings::default());
            assert_eq!(m.config_file, "a.conf");
            assert_eq!(m.check_interval, 5);
            assert!(m.web_enable);
        }
        _ => panic!(),
    }
    assert!(matches!(parse_args(&strings(&["-v", "-x"])), Cli::Version));
    assert!(matches!(parse_args(&strings(&["-h"])), Cli::Help));
    assert!(matches!(parse_args(&strings(&["-c"])), Cli::MissingConfig));
    assert!(matches!(parse_args(&strings(&["-b"])), Cli::MissingCpuset));
    assert!(matches!(parse_args(&strings(&["-b", "a/b"])), Cli::BadCpuset(n) if n == "a/b"));
    assert!(matches!(parse_args(&strings(&["-b", ""])), Cli::BadCpuset(_)));
    assert!(matches!(parse_args(&strings(&["-s"])), Cli::MissingInterval));
    assert!(matches!(parse_args(&strings(&["-s", "0"])), Cli::BadInterval(_)));
    assert!(matches!(parse_args(&strings(&["-s", "x"])), Cli::BadInterval(_)));
    assert!(matches!(parse_args(&strings(&["x"])), Cli::Unknown(a) if a == "x"));
    match parse_args(&vec![]) {
        Cli::Run(o) => {
            let m = merge(&o, &Settings::default());
            assert_eq!(m.config_file, "./applist.conf");
            assert_eq!(m.check_interval, 2);
            assert_eq!(m.cpuset_name, "AppOpt");
            assert!(!m.web_enable);
        }
        _ => panic!(),
    }
}

#[test]
fn settings_read_back() {
    let s = Settings {
        web_enable: true,
        mode: 1,
        check_interval: 9,
        cpuset_name: String::from("Games"),
        config_file: String::from("/data/a \"b\".conf"),
    };
    let text = s.to_text();
    assert!(text.contains("\"check_interval\": 9"));
    let (again, save) = settings_load(&FileRead::Text(text));
    assert!(!save && again.web_enable);
    assert_eq!((again.mode, again.check_interval), (1, 9));
    assert_eq!(again.cpuset_name, "Games");
    assert_eq!(again.config_file, "/data/a \"b\".conf");
}

#[test]
fn settings_that_make_no_sense() {
    let (s, _) = settings_load(&FileRead::Text(String::from(
        "{\"mode\": 9, \"check_interval\": 0, \"cpuset_name\": \"a/b\", \"config_file\": \"\", \"web_enable\": 1}",
    )));
    assert_eq!((s.mode, s.check_interval, s.web_enable), (2, 1, false));
    assert_eq!(s.cpuset_name, "AppOpt");
    assert_eq!(s.config_file, "./applist.conf");
    let (s, save) = settings_load(&FileRead::Text(String::from("{")));
    assert!(!save);
    assert_eq!(s.check_interval, 2);
    assert!(settings_load(&FileRead::Missing).1);
    assert!(!settings_load(&FileRead::Failed).1);
    let s = settings_save(true, 2, 0, "/dev/cpuset/Games", "f");
    assert_eq!((s.check_interval, s.cpuset_name.as_str()), (1, "Games"));
    assert!(valid_name("a") && !valid_name("a b") && !valid_name(""));
    assert!(valid_path("/a b") && !valid_path("") && !valid_path("a\n"));
    let s = Settings::from_given(&GivenSettings {
        web_enable: None,
        mode: None,
        check_interval: Some(5000),
        cpuset_name: None,
        config_file: None,
    });
    assert_eq!(s.check_interval, 3600);
}

#[test]
fn heads_of_requests() {
    let mut head: Vec<u8> = Vec::new();
    assert_eq!(head_line(&mut head, &body("GET / HTTP/1.1\r\n")), HeadStep::More);
    assert_eq!(head_line(&mut head, &body("\r\n")), HeadStep::Done);
    assert_eq!(head_line(&mut head, &vec![]), HeadStep::Refuse);
    assert_eq!(head_line(&mut head, &vec![b'a'; MAX_HEAD]), HeadStep::Refuse);
    let (q, len) = request_read(&body(
        "POST /api/rule?x=1 HTTP/1.1\r\nHost: LocalHost:8889\r\nContent-Type: Application/JSON\r\nContent-Length: 7\r\n",
    ))
    .unwrap();
    assert_eq!(len, 7);
    assert_eq!(q.method, "POST");
    assert_eq!(q.host, "localhost:8889");
    assert!(q.keep_alive);
    assert!(request_read(&body("GET\r\n")).is_none());
    assert!(parse_head("POST / HTTP/1.1\r\nTransfer-Encoding: chunked\r\n").is_none());
    assert!(parse_head("POST / HTTP/1.1\r\nContent-Length: 16385\r\n").is_none());
    assert!(parse_head("POST / HTTP/1.1\r\nContent-Length: x\r\n").is_none());
    let mut bytes = body("GET / HTTP/1.0\r\nHost: ");
    bytes.push(0xff);
    bytes.extend_from_slice(b"\r\n");
    let (q, _) = request_read(&bytes).unwrap();
    assert_eq!(q.host, "\u{fffd}");
    assert!(!q.keep_alive);
    assert_eq!(to_lower("AbÄ"), "abÄ");
}

fn request(method: &str, path: &str) -> Request {
    Request {
        method: String::from(method),
        path: String::from(path),
        host: String::from("127.0.0.1:8889"),
        origin: String::new(),
        fetch_site: String::new(),
        content_type: String::from("application/json; charset=utf-8"),
        body: vec![],
        keep_alive: true,
    }
}

#[test]
fn requests_are_routed() {
    assert!(matches!(dispatch(&request("GET", "/")), Route::Index));
    assert!(matches!(dispatch(&request("GET", "/api/status")), Route::Status));
    assert!(matches!(dispatch(&request("GET", "/api/rule")), Route::NotFound));
    assert!(matches!(dispatch(&request("POST", "/api/rule")), Route::RuleSet));
    assert!(matches!(dispatch(&request("POST", "/api/refresh/app/del")), Route::RefreshAppDelete));
    assert!(matches!(dispatch(&request("PUT", "/")), Route::NotFound));
}

#[test]
fn foreign_requests_are_refused() {
    let mut q = request("GET", "/");
    q.host = String::from("example.com:8889");
    assert!(matches!(dispatch(&q), Route::Forbidden));
    let mut q = request("GET", "/");
    q.origin = String::from("https://example.com");
    q.fetch_site = String::from("cross-site");
    assert!(matches!(dispatch(&q), Route::Forbidden));
    let mut q = request("POST", "/api/rule");
    q.content_type = String::from("text/plain");
    assert!(matches!(dispatch(&q), Route::Forbidden));
    assert!(closes(Route::Forbidden, true) && !closes(Route::Index, true) && closes(Route::Index, false));
    assert_eq!(
        response_head(200, "text/html", 12, true),
        "HTTP/1.1 200 OK\r\nContent-Type: text/html\r\nContent-Length: 12\r\nCache-Control: no-store\r\nConnection: close\r\n\r\n"
    );
}

#[test]
fn rules_by_request() {
    let cfg = config();
    match rule_api(&body("{\"pkg\": \" com.a \", \"cpus\": \"0-1\", \"thread\": \"t\"}"), Some(&cfg)) {
        Ok(RuleCall::Upsert { pkg, thread, cpus }) => {
            assert_eq!((pkg.as_str(), thread.as_str(), cpus.as_str()), ("com.a", "t", "0-1"));
        }
        _ => panic!(),
    }
    let err = |b: &str| match rule_api(&body(b), Some(&cfg)) {
        Err(e) => e,
        Ok(_) => panic!(),
    };
    assert_eq!(err("{"), ApiError::BadJson);
    assert_eq!(err("{\"pkg\": 1, \"cpus\": \"0\"}"), ApiError::MissingRuleFields);
    assert_eq!(err("{\"pkg\": \"a#b\", \"cpus\": \"0\"}"), ApiError::BadName);
    assert_eq!(err("{\"pkg\": \"a{b}\", \"cpus\": \"0\"}"), ApiError::BracedPkg);
    assert_eq!(err("{\"pkg\": \"a\", \"cpus\": \"7\"}"), ApiError::BadSpec);
    assert!(matches!(rule_api(&body("{\"pkg\": \"a\", \"cpus\": \"0\"}"), None), Err(ApiError::NotReady)));
    assert!(token_ok("a", 4) && !token_ok("abcd", 4) && !token_ok("a//b", 9));
    assert!(pkg_shape_ok("a{") && !pkg_shape_ok("a{b}"));
}

#[test]
fn removals_and_renamings_by_request() {
    assert!(matches!(rule_del_api(&body("{\"pkg\": \"a\", \"all\": true}")), Ok(RuleCall::DeletePkg { pkg }) if pkg == "a"));
    assert!(matches!(rule_del_api(&body("{\"pkg\": \"a\", \"thread\": \"t\"}")), Ok(RuleCall::Delete { pkg, thread }) if pkg == "a" && thread == "t"));
    assert!(matches!(rule_del_api(&body("{}")), Err(ApiError::MissingPkg)));
    assert!(matches!(check_delete(Some("a"), None, Some(false)), Ok(RuleCall::Delete { .. })));
    assert!(matches!(rule_rename_api(&body("{\"old\": \"a\", \"new\": \"b\"}")), Ok(Some(RuleCall::Rename { .. }))));
    assert!(matches!(rule_rename_api(&body("{\"old\": \"a\", \"new\": \"a\"}")), Ok(None)));
    assert!(matches!(rule_rename_api(&body("{\"old\": \"a\"}")), Err(ApiError::MissingNames)));
    assert!(matches!(rule_rename_api(&body("{\"old\": \"a\", \"new\": \"b{c}\"}")), Err(ApiError::BracedTarget)));
    assert_eq!(upsert_reply(RuleEdit::Done), Ok(()));
    assert_eq!(upsert_reply(RuleEdit::Malformed), Err(ApiError::Malformed));
    assert_eq!(upsert_reply(RuleEdit::Conflict), Err(ApiError::WriteFailed));
    assert_eq!(delete_reply(RuleEdit::NotFound), Err(ApiError::NoSuchRule));
    assert_eq!(delete_reply(RuleEdit::Conflict), Err(ApiError::StateConflict));
    assert_eq!(rename_reply(RuleEdit::NotFound), Err(ApiError::NoSuchPkg));
    assert_eq!(rename_reply(RuleEdit::Conflict), Err(ApiError::TargetTaken));
    assert_eq!(rename_reply(RuleEdit::IoErr), Err(ApiError::WriteFailed));
}

#[test]
fn statuses_of_errors() {
    assert_eq!(err_json(ApiError::Forbidden), (403, "forbidden"));
    assert_eq!(err_json(ApiError::NotFound), (404, "not found"));
    assert_eq!(status(ApiError::Malformed), 409);
    assert_eq!(status(ApiError::NotReady), 500);
    assert_eq!(status(ApiError::DeleteFailed), 500);
    assert_eq!(status(ApiError::NoSuchPkg), 404);
    assert_eq!(status(ApiError::BadJson), 400);
}

#[test]
fn settings_by_request() {
    let c = config_set_api(&body("{\"mode\": 1, \"interval\": 5, \"cpuset_name\": \"X\", \"config_file\": \"/a\"}")).ok().unwrap();
    let mut st = WebState {
        mode: 0,
        interval: 2,
        root: CpusetRoot { path: None },
        config_file: String::from("f"),
    };
    let a = apply_change(&mut st, &c, true);
    assert_eq!((st.mode, st.interval, st.config_file.as_str()), (1, 5, "/a"));
    assert_eq!(base_cpuset(&st.root), "/dev/cpuset/X");
    assert!(a.notify_mode && a.make_cpuset && a.make_file);
    assert_eq!(a.reloads, 2);
    let none = ConfigChange { mode: None, interval: None, cpuset_name: None, config_file: None };
    assert_eq!(apply_change(&mut st, &none, true).reloads, 0);
    let err = |b: &str| config_set_api(&body(b)).err().unwrap();
    assert_eq!(err("{\"mode\": 3}"), ApiError::BadMode);
    assert_eq!(err("{\"interval\": 3601}"), ApiError::BadInterval);
    assert_eq!(err("{\"cpuset_name\": \"a/b\"}"), ApiError::BadCpusetName);
    assert_eq!(err("{\"config_file\": \"\"}"), ApiError::BadPath);
    assert_eq!(err("x"), ApiError::BadJson);
}

#[test]
fn refresh_rates_by_request() {
    let r = refresh_config_set_api(&body("{\"timeout\": 15, \"active\": \"90\"}")).ok().unwrap();
    assert_eq!((r.timeout, r.active.as_str(), r.idle.as_str()), (15, "90", "60"));
    assert!(matches!(refresh_config_set_api(&body("{\"timeout\": 0}")), Err(ApiError::BadTimeout)));
    assert!(matches!(refresh_config_set_api(&body("{\"timeout\": 4294967326}")), Ok(s) if s.timeout == 30));
    assert!(matches!(refresh_config_set_api(&body("{\"timeout\": 4294967295}")), Err(ApiError::BadTimeout)));
    assert!(matches!(refresh_config_set_api(&body("{\"timeout\": 3601}")), Err(ApiError::BadTimeout)));
    assert!(matches!(refresh_config_set_api(&body("{\"idle\": \"75\"}")), Err(ApiError::BadRate)));
    let (p, _) = refresh_app_add_api(&body("{\"pkg\": \"com.a\"}")).ok().unwrap();
    assert_eq!(p, "com.a");
    assert!(refresh_app_add_api(&body("{}")).is_err());
    assert_eq!(refresh_app_del_api(&body("{\"pkg\": \"com.a\"}")).ok().as_deref(), Some("com.a"));
    assert!(refresh_app_del_api(&body("{\"pkg\": \"\"}")).is_err());
}

#[test]
fn suggestions() {
    assert!(matches!(suggest_api(&body("{\"q\": \"a\"}")), Ok(SuggestCall::Packages(q)) if q == "a"));
    assert!(matches!(suggest_api(&body("{\"q\": \"a\", \"pkg\": \"com.b\"}")), Ok(SuggestCall::Threads(p, q)) if p == "com.b" && q == "a"));
    let long = format!("{{\"q\": \"{}\"}}", "a".repeat(65));
    assert!(matches!(suggest_api(&body(&long)), Err(ApiError::LongQuery)));
    let top = suggest_pkgs(
        &strings(&["com.game", "com.agame", "org.x"]),
        &strings(&["com.agame", "game.app"]),
        "GAME",
    );
    let names: Vec<&str> = top.iter().map(|p| p.0.as_str()).collect();
    assert_eq!(names, vec!["game.app", "com.agame", "com.game"]);
    let top = suggest_threads(&strings(&["b", "a", "b"]), "");
    assert_eq!(top, vec![(String::from("b"), 2), (String::from("a"), 1)]);
    let mut counts: NameMap<u64> = NameMap::new();
    for i in 0..30 {
        counts.insert(&format!("n{}", i), i);
    }
    let top = rank_top(&counts, "n");
    assert_eq!(top.len(), 20);
    assert_eq!(top[0].1, 29);
    assert_eq!(installed_pkgs(&strings(&["com.a", ".x.y", "nodot"])), strings(&["com.a"]));
    assert_eq!(application_names(&strings(&["com.a", "init"])), strings(&["com.a"]));
    assert_eq!(thread_comm("Render \0\n").as_deref(), Some("Render"));
    assert_eq!(thread_comm("\n"), None);
}

#[test]
fn someone_is_looking() {
    let mut a = WebActivity { last: None };
    assert!(!web_active(&a, 5));
    mark_web_active(&mut a, 10);
    assert!(web_active(&a, 10 + 5_999_999_999) && !web_active(&a, 10 + 6_000_000_000));
    assert!(notify_mode_switch(3) && !notify_mode_switch(-1));
    assert_eq!(WebStats::none().threads, 0);
    assert_eq!(mode_label(0, "-"), "120Hz");
    assert_eq!(mode_label(2, "-"), "90Hz");
    assert_eq!(mode_label(7, "-"), "-");
}
