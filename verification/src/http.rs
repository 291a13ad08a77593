//! Requests to the web front end: how they are read, and what answers them.
use vstd::prelude::*;

use crate::number;
use crate::text;

verus! {

broadcast use vstd::string::group_string_axioms;

/// The port of the web front end, on this machine alone.
pub const WEB_PORT: u16 = 8889;

/// The most bytes that the head of a request may have.
pub const MAX_HEAD: usize = 8192;

/// The most bytes that the body of a request may have.
pub const MAX_BODY: usize = 16384;

/// A letter in its small form, as far as ASCII goes.
pub open spec fn lower(c: char) -> char {
    if 'A' <= c && c <= 'Z' {
        (c as int + 32) as char
    } else {
        c
    }
}

/// A text in small letters, as far as ASCII goes.
pub open spec fn lowered(s: Seq<char>) -> Seq<char> {
    s.map_values(|c: char| lower(c))
}

fn lower_of(c: char) -> (r: char)
    ensures
        r == lower(c),
{
    if 'A' <= c && c <= 'Z' {
        (c as u8 + 32) as char
    } else {
        c
    }
}

/// A text in small letters, as far as ASCII goes.
pub fn to_lower(s: &str) -> (r: String)
    ensures
        r@ == lowered(s@),
{
    let cs = text::chars_of(s);
    let mut r = String::new();
    let mut i: usize = 0;
    proof {
        assert(r@ =~= lowered(s@.take(0)));
    }
    while i < cs.len()
        invariant
            i <= cs.len(),
            cs@ == s@,
            r@ == lowered(s@.take(i as int)),
        decreases cs.len() - i,
    {
        let c: char = cs[i];
        let ghost before = r@;
        let l: char = lower_of(c);
        r.push(l);
        proof {
            assert(s@.take(i + 1) =~= s@.take(i as int).push(c));
            assert(r@ =~= lowered(s@.take(i + 1)));
        }
        i += 1;
    }
    proof {
        assert(s@.take(i as int) =~= s@);
    }
    r
}

/// What a line of the head of a request comes to.
#[derive(Clone, Copy, Debug, PartialEq, Eq, Structural)]
pub enum HeadStep {
    /// There is more to read.
    More,
    /// The head is complete.
    Done,
    /// The request is dropped.
    Refuse,
}

/// The line ends the head.
pub open spec fn ends_head(line: Seq<u8>) -> bool {
    line == seq![13u8, 10u8] || line == seq![10u8]
}

/// Takes up a line of the head, with its line feed; a line without anything
/// means that the connection is closed.
pub fn head_line(head: &mut Vec<u8>, line: &Vec<u8>) -> (r: HeadStep)
    ensures
        r == (if line@.len() == 0 {
            HeadStep::Refuse
        } else if ends_head(line@) {
            HeadStep::Done
        } else if old(head)@.len() + line@.len() > MAX_HEAD {
            HeadStep::Refuse
        } else {
            HeadStep::More
        }),
        final(head)@ == (if r == HeadStep::More {
            old(head)@ + line@
        } else {
            old(head)@
        }),
{
    let n: usize = line.len();
    if n == 0 {
        return HeadStep::Refuse;
    }
    let blank: bool = (n == 2 && line[0] == 13 && line[1] == 10) || (n == 1 && line[0] == 10);
    proof {
        if blank {
            if n == 2 {
                assert(line@ =~= seq![13u8, 10u8]);
            } else {
                assert(line@ =~= seq![10u8]);
            }
        }
    }
    if blank {
        return HeadStep::Done;
    }
    if head.len() > MAX_HEAD || n > MAX_HEAD - head.len() {
        return HeadStep::Refuse;
    }
    let ghost before = head@;
    let mut i: usize = 0;
    proof {
        assert(head@ =~= before + line@.take(0));
    }
    while i < n
        invariant
            i <= n,
            n == line.len(),
            head@ == before + line@.take(i as int),
        decreases n - i,
    {
        head.push(line[i]);
        proof {
            assert(head@ =~= before + line@.take(i + 1));
        }
        i += 1;
    }
    proof {
        assert(line@.take(i as int) =~= line@);
    }
    HeadStep::More
}

/// A request.
pub struct Request {
    pub method: String,
    /// The path, without the query.
    pub path: String,
    pub host: String,
    pub origin: String,
    pub fetch_site: String,
    pub content_type: String,
    pub body: Vec<u8>,
    pub keep_alive: bool,
}

/// What the headers of a request say.
#[verifier::ext_equal]
pub ghost struct HeaderView {
    pub host: Seq<char>,
    pub origin: Seq<char>,
    pub site: Seq<char>,
    pub ctype: Seq<char>,
    pub conn: Seq<char>,
    pub len: nat,
    /// The body comes in pieces.
    pub chunked: bool,
}

/// The length that a header gives; more than fits where it is no number.
pub open spec fn length_in(v: Seq<char>) -> nat {
    match number::unsigned(v, usize::MAX as nat) {
        Some(n) => n,
        None => usize::MAX as nat,
    }
}

/// What a header with that name says.
pub open spec fn header_set(h: HeaderView, key: Seq<char>, v: Seq<char>) -> HeaderView {
    if key == "host"@ {
        HeaderView { host: lowered(v), ..h }
    } else if key == "origin"@ {
        HeaderView { origin: lowered(v), ..h }
    } else if key == "sec-fetch-site"@ {
        HeaderView { site: lowered(v), ..h }
    } else if key == "content-type"@ {
        HeaderView { ctype: lowered(v), ..h }
    } else if key == "content-length"@ {
        HeaderView { len: length_in(v), ..h }
    } else if key == "connection"@ {
        HeaderView { conn: lowered(v), ..h }
    } else if key == "transfer-encoding"@ {
        HeaderView { chunked: true, ..h }
    } else {
        h
    }
}

/// What a line of the head says; a line without a colon says nothing.
pub open spec fn header_step(h: HeaderView, line: Seq<char>) -> HeaderView {
    let k = text::first(line, ':') as int;
    if k < line.len() {
        header_set(h, lowered(text::trimmed(line.take(k))), text::trimmed(line.skip(k + 1)))
    } else {
        h
    }
}

/// What the first `n` lines say; the very first is no header.
pub open spec fn headers_after(lines: Seq<Seq<char>>, n: nat) -> HeaderView
    decreases n,
{
    if n <= 1 {
        HeaderView {
            host: seq![],
            origin: seq![],
            site: seq![],
            ctype: seq![],
            conn: seq![],
            len: 0,
            chunked: false,
        }
    } else {
        header_step(headers_after(lines, (n - 1) as nat), lines[n - 1])
    }
}

/// The connection is kept for more requests.
pub open spec fn keeps_alive(version: Seq<char>, conn: Seq<char>) -> bool {
    if version == "HTTP/1.0"@ {
        text::holds(conn, "keep-alive"@)
    } else {
        !text::holds(conn, "close"@)
    }
}

/// The head of a request without its body.
#[verifier::ext_equal]
pub ghost struct RequestView {
    pub method: Seq<char>,
    pub path: Seq<char>,
    pub host: Seq<char>,
    pub origin: Seq<char>,
    pub fetch_site: Seq<char>,
    pub content_type: Seq<char>,
    pub keep_alive: bool,
}

impl Request {
    /// The request without its body.
    pub open spec fn head(self) -> RequestView {
        RequestView {
            method: self.method@,
            path: self.path@,
            host: self.host@,
            origin: self.origin@,
            fetch_site: self.fetch_site@,
            content_type: self.content_type@,
            keep_alive: self.keep_alive,
        }
    }
}

/// The request that a head makes, and the length of its body. There is none
/// without a method and a path, with a body in pieces, and with one that is too
/// long.
pub open spec fn request_of(head: Seq<char>) -> Option<(RequestView, nat)> {
    let lines = text::line_seq(head);
    let ws = text::words(lines[0]);
    let h = headers_after(lines, lines.len());
    let version = if ws.len() > 2 {
        ws[2]
    } else {
        "HTTP/1.1"@
    };
    if lines.len() == 0 || ws.len() < 2 || h.chunked || h.len > MAX_BODY {
        None
    } else {
        Some(
            (
                RequestView {
                    method: ws[0],
                    path: ws[1].take(text::first(ws[1], '?') as int),
                    host: h.host,
                    origin: h.origin,
                    fetch_site: h.site,
                    content_type: h.ctype,
                    keep_alive: keeps_alive(version, h.conn),
                },
                h.len,
            ),
        )
    }
}

struct Headers {
    host: String,
    origin: String,
    site: String,
    ctype: String,
    conn: String,
    len: usize,
    chunked: bool,
}

impl Headers {
    spec fn at(self, h: HeaderView) -> bool {
        &&& self.host@ == h.host
        &&& self.origin@ == h.origin
        &&& self.site@ == h.site
        &&& self.ctype@ == h.ctype
        &&& self.conn@ == h.conn
        &&& self.len == h.len
        &&& self.chunked == h.chunked
    }

    fn set(&mut self, key: &str, v: &str, Ghost(h): Ghost<HeaderView>)
        requires
            old(self).at(h),
        ensures
            final(self).at(header_set(h, key@, v@)),
    {
        if text::same(key, "host") {
            self.host = to_lower(v);
        } else if text::same(key, "origin") {
            self.origin = to_lower(v);
        } else if text::same(key, "sec-fetch-site") {
            self.site = to_lower(v);
        } else if text::same(key, "content-type") {
            self.ctype = to_lower(v);
        } else if text::same(key, "content-length") {
            self.len = match number::parse_usize(v) {
                Some(n) => n,
                None => usize::MAX,
            };
        } else if text::same(key, "connection") {
            self.conn = to_lower(v);
        } else if text::same(key, "transfer-encoding") {
            self.chunked = true;
        }
    }

    fn line(&mut self, line: &str, Ghost(h): Ghost<HeaderView>)
        requires
            old(self).at(h),
        ensures
            final(self).at(header_step(h, line@)),
    {
        if let Some((k, v)) = text::split_once(line, ':') {
            let key = to_lower(text::trim(k));
            self.set(key.as_str(), text::trim(v), Ghost(h));
        }
    }
}

/// The path without the query.
fn without_query(s: &str) -> (r: String)
    ensures
        r@ == s@.take(text::first(s@, '?') as int),
{
    match text::find(s, '?') {
        Some(k) => text::head(s, k).to_owned(),
        None => {
            proof {
                text::lemma_first(s@, '?');
                assert(s@.take(s@.len() as int) =~= s@);
            }
            s.to_owned()
        },
    }
}

/// The request that the text of a head makes, still without its body, and the
/// length of the body.
pub fn parse_head(head: &str) -> (r: Option<(Request, usize)>)
    ensures
        match r {
            Some((q, n)) => request_of(head@) == Some((q.head(), n as nat)) && q.body@.len() == 0,
            None => request_of(head@) is None,
        },
{
    let lines = text::lines(head);
    let ghost all = text::line_seq(head@);
    if lines.len() == 0 {
        return None;
    }
    let first = lines[0];
    assert(first@ == all[0]);
    let ws = text::split_whitespace(first);
    let ghost vs = text::words(first@);
    if ws.len() < 2 {
        return None;
    }
    assert(ws@[0]@ == vs[0]);
    assert(ws@[1]@ == vs[1]);
    let method: String = ws[0].to_owned();
    let path: String = without_query(ws[1]);
    let version: &str = if ws.len() > 2 {
        assert(ws@[2]@ == vs[2]);
        ws[2]
    } else {
        "HTTP/1.1"
    };
    let mut h = Headers {
        host: String::new(),
        origin: String::new(),
        site: String::new(),
        ctype: String::new(),
        conn: String::new(),
        len: 0,
        chunked: false,
    };
    proof {
        assert(h.host@ =~= Seq::<char>::empty());
        assert(h.at(headers_after(all, 1)));
    }
    let mut i: usize = 1;
    while i < lines.len()
        invariant
            1 <= i <= lines.len(),
            text::views(lines@) == all,
            h.at(headers_after(all, i as nat)),
        decreases lines.len() - i,
    {
        let line = lines[i];
        assert(line@ == all[i as int]);
        h.line(line, Ghost(headers_after(all, i as nat)));
        i += 1;
    }
    if h.chunked || h.len > MAX_BODY {
        return None;
    }
    let keep_alive: bool = if text::same(version, "HTTP/1.0") {
        text::contains(h.conn.as_str(), "keep-alive")
    } else {
        !text::contains(h.conn.as_str(), "close")
    };
    Some(
        (
            Request {
                method,
                path,
                host: h.host,
                origin: h.origin,
                fetch_site: h.site,
                content_type: h.ctype,
                body: Vec::new(),
                keep_alive,
            },
            h.len,
        ),
    )
}

/// The request that the bytes of a head make, still without its body, and the
/// length of the body.
pub fn request_read(head: &Vec<u8>) -> (r: Option<(Request, usize)>)
    ensures
        match r {
            Some((q, n)) => request_of(text::lossy(head@)) == Some((q.head(), n as nat))
                && q.body@.len() == 0,
            None => request_of(text::lossy(head@)) is None,
        },
{
    let t = text::lossy_text(head.as_slice());
    parse_head(t.as_str())
}

/// What a request asks for.
#[derive(Clone, Copy, Debug, PartialEq, Eq, Structural)]
pub enum Route {
    Forbidden,
    Index,
    Status,
    Rules,
    Config,
    RuleSet,
    RuleDelete,
    RuleRename,
    ConfigSet,
    Suggest,
    RefreshStatus,
    RefreshConfig,
    RefreshConfigSet,
    RefreshApps,
    RefreshAppAdd,
    RefreshAppDelete,
    NotFound,
}

/// The host without the port of the front end.
pub open spec fn bare_host(host: Seq<char>) -> Seq<char> {
    if text::ends(host, ":8889"@) {
        host.take(host.len() - 5)
    } else {
        host
    }
}

/// The request comes from this machine, from a page of the front end itself or
/// from none, and what it sends is JSON.
pub open spec fn is_allowed(q: RequestView) -> bool {
    let host = bare_host(q.host);
    &&& host == "127.0.0.1"@ || host == "localhost"@
    &&& q.origin.len() == 0 || q.origin == "null"@ || q.fetch_site.len() == 0 || q.fetch_site
        == "none"@ || q.fetch_site == "same-origin"@
    &&& q.method != "POST"@ || text::starts(q.content_type, "application/json"@)
}

/// What a reading request asks for.
pub open spec fn get_route(path: Seq<char>) -> Route {
    if path == "/"@ || path == "/index.html"@ {
        Route::Index
    } else if path == "/api/status"@ {
        Route::Status
    } else if path == "/api/rules"@ {
        Route::Rules
    } else if path == "/api/config"@ {
        Route::Config
    } else if path == "/api/refresh/status"@ {
        Route::RefreshStatus
    } else if path == "/api/refresh/config"@ {
        Route::RefreshConfig
    } else if path == "/api/refresh/apps"@ {
        Route::RefreshApps
    } else {
        Route::NotFound
    }
}

/// What a changing request asks for.
pub open spec fn post_route(path: Seq<char>) -> Route {
    if path == "/api/rule"@ {
        Route::RuleSet
    } else if path == "/api/rule/del"@ {
        Route::RuleDelete
    } else if path == "/api/rule/rename"@ {
        Route::RuleRename
    } else if path == "/api/config"@ {
        Route::ConfigSet
    } else if path == "/api/suggest"@ {
        Route::Suggest
    } else if path == "/api/refresh/config"@ {
        Route::RefreshConfigSet
    } else if path == "/api/refresh/app"@ {
        Route::RefreshAppAdd
    } else if path == "/api/refresh/app/del"@ {
        Route::RefreshAppDelete
    } else {
        Route::NotFound
    }
}

/// What a request asks for.
pub open spec fn route_of(q: RequestView) -> Route {
    if !is_allowed(q) {
        Route::Forbidden
    } else if q.method == "GET"@ {
        get_route(q.path)
    } else if q.method == "POST"@ {
        post_route(q.path)
    } else {
        Route::NotFound
    }
}

fn allowed(q: &Request) -> (r: bool)
    ensures
        r == is_allowed(q.head()),
{
    let host: &str = q.host.as_str();
    let bare: &str = if text::ends_with(host, ":8889") {
        proof {
            reveal_strlit(":8889");
        }
        text::head(host, host.unicode_len() - 5)
    } else {
        host
    };
    if !text::same(bare, "127.0.0.1") && !text::same(bare, "localhost") {
        return false;
    }
    let site: &str = q.fetch_site.as_str();
    if !(q.origin.as_str().is_empty() || text::same(q.origin.as_str(), "null") || site.is_empty()
        || text::same(site, "none") || text::same(site, "same-origin")) {
        return false;
    }
    !text::same(q.method.as_str(), "POST") || text::starts_with(
        q.content_type.as_str(),
        "application/json",
    )
}

/// What a request asks for.
pub fn dispatch(q: &Request) -> (r: Route)
    ensures
        r == route_of(q.head()),
{
    if !allowed(q) {
        return Route::Forbidden;
    }
    let p: &str = q.path.as_str();
    if text::same(q.method.as_str(), "GET") {
        if text::same(p, "/") || text::same(p, "/index.html") {
            Route::Index
        } else if text::same(p, "/api/status") {
            Route::Status
        } else if text::same(p, "/api/rules") {
            Route::Rules
        } else if text::same(p, "/api/config") {
            Route::Config
        } else if text::same(p, "/api/refresh/status") {
            Route::RefreshStatus
        } else if text::same(p, "/api/refresh/config") {
            Route::RefreshConfig
        } else if text::same(p, "/api/refresh/apps") {
            Route::RefreshApps
        } else {
            Route::NotFound
        }
    } else if text::same(q.method.as_str(), "POST") {
        if text::same(p, "/api/rule") {
            Route::RuleSet
        } else if text::same(p, "/api/rule/del") {
            Route::RuleDelete
        } else if text::same(p, "/api/rule/rename") {
            Route::RuleRename
        } else if text::same(p, "/api/config") {
            Route::ConfigSet
        } else if text::same(p, "/api/suggest") {
            Route::Suggest
        } else if text::same(p, "/api/refresh/config") {
            Route::RefreshConfigSet
        } else if text::same(p, "/api/refresh/app") {
            Route::RefreshAppAdd
        } else if text::same(p, "/api/refresh/app/del") {
            Route::RefreshAppDelete
        } else {
            Route::NotFound
        }
    } else {
        Route::NotFound
    }
}

/// Whether the connection is closed after the answer: after a refusal in any
/// case.
pub fn closes(route: Route, keep_alive: bool) -> (r: bool)
    ensures
        r == (route == Route::Forbidden || !keep_alive),
{
    match route {
        Route::Forbidden => true,
        _ => !keep_alive,
    }
}

/// The words for a status.
pub open spec fn reason(status: u16) -> Seq<char> {
    if status == 200 {
        "OK"@
    } else if status == 400 {
        "Bad Request"@
    } else if status == 403 {
        "Forbidden"@
    } else if status == 404 {
        "Not Found"@
    } else {
        "Error"@
    }
}

fn reason_of(status: u16) -> (r: &'static str)
    ensures
        r@ == reason(status),
{
    if status == 200 {
        "OK"
    } else if status == 400 {
        "Bad Request"
    } else if status == 403 {
        "Forbidden"
    } else if status == 404 {
        "Not Found"
    } else {
        "Error"
    }
}

/// The head of an answer.
pub open spec fn response_text(status: u16, ctype: Seq<char>, len: nat, close: bool) -> Seq<char> {
    "HTTP/1.1 "@ + number::dec(status as nat) + seq![' '] + reason(status) + "\r\nContent-Type: "@
        + ctype + "\r\nContent-Length: "@ + number::dec(len)
        + "\r\nCache-Control: no-store\r\nConnection: "@ + (if close {
        "close"@
    } else {
        "keep-alive"@
    }) + "\r\n\r\n"@
}

/// The head of an answer with a body of `len` bytes.
pub fn response_head(status: u16, ctype: &str, len: u64, close: bool) -> (r: String)
    ensures
        r@ == response_text(status, ctype@, len as nat, close),
{
    let mut r = "HTTP/1.1 ".to_owned();
    number::push_u64(&mut r, status as u64);
    r.push(' ');
    r.append(reason_of(status));
    r.append("\r\nContent-Type: ");
    r.append(ctype);
    r.append("\r\nContent-Length: ");
    number::push_u64(&mut r, len);
    r.append("\r\nCache-Control: no-store\r\nConnection: ");
    r.append(
        if close {
            "close"
        } else {
            "keep-alive"
        },
    );
    r.append("\r\n\r\n");
    proof {
        assert(r@ =~= response_text(status, ctype@, len as nat, close));
    }
    r
}

/// Every path of the front end leads to its own answer: an allowed request to
/// read or to change something gets that very thing, and a path that is none of
/// these leads nowhere.
pub proof fn paths_lead_to_their_answers(q: RequestView)
    requires
        is_allowed(q),
    ensures
        q.method == "GET"@ && q.path == "/"@ ==> route_of(q) == Route::Index,
        q.method == "GET"@ && q.path == "/index.html"@ ==> route_of(q) == Route::Index,
        q.method == "GET"@ && q.path == "/api/status"@ ==> route_of(q) == Route::Status,
        q.method == "GET"@ && q.path == "/api/rules"@ ==> route_of(q) == Route::Rules,
        q.method == "GET"@ && q.path == "/api/config"@ ==> route_of(q) == Route::Config,
        q.method == "GET"@ && q.path == "/api/refresh/status"@ ==> route_of(q) == Route::RefreshStatus,
        q.method == "GET"@ && q.path == "/api/refresh/config"@ ==> route_of(q) == Route::RefreshConfig,
        q.method == "GET"@ && q.path == "/api/refresh/apps"@ ==> route_of(q) == Route::RefreshApps,
        q.method == "POST"@ && q.path == "/api/rule"@ ==> route_of(q) == Route::RuleSet,
        q.method == "POST"@ && q.path == "/api/rule/del"@ ==> route_of(q) == Route::RuleDelete,
        q.method == "POST"@ && q.path == "/api/rule/rename"@ ==> route_of(q) == Route::RuleRename,
        q.method == "POST"@ && q.path == "/api/config"@ ==> route_of(q) == Route::ConfigSet,
        q.method == "POST"@ && q.path == "/api/suggest"@ ==> route_of(q) == Route::Suggest,
        q.method == "POST"@ && q.path == "/api/refresh/config"@ ==> route_of(q) == Route::RefreshConfigSet,
        q.method == "POST"@ && q.path == "/api/refresh/app"@ ==> route_of(q) == Route::RefreshAppAdd,
        q.method == "POST"@ && q.path == "/api/refresh/app/del"@ ==> route_of(q) == Route::RefreshAppDelete,
        q.method != "GET"@ && q.method != "POST"@ ==> route_of(q) == Route::NotFound,
        route_of(q) != Route::Forbidden,
        route_of(q) == Route::NotFound || q.path == "/"@ || q.path == "/index.html"@
            || text::starts(q.path, "/api/"@),
{
    reveal_strlit("GET");
    reveal_strlit("POST");
    reveal_strlit("/api/");
    assert("GET"@.len() != "POST"@.len());
    reveal_strlit("/");
    reveal_strlit("/index.html");
    reveal_strlit("/api/status");
    reveal_strlit("/api/rules");
    reveal_strlit("/api/config");
    reveal_strlit("/api/refresh/status");
    reveal_strlit("/api/refresh/config");
    reveal_strlit("/api/refresh/apps");
    reveal_strlit("/api/rule");
    reveal_strlit("/api/rule/del");
    reveal_strlit("/api/rule/rename");
    reveal_strlit("/api/suggest");
    reveal_strlit("/api/refresh/app");
    reveal_strlit("/api/refresh/app/del");
    assert("/"@.len() == 1);
    assert("/index.html"@.len() == 11);
    assert("/api/status"@.len() == 11);
    assert("/api/rules"@.len() == 10);
    assert("/api/config"@.len() == 11);
    assert("/api/refresh/status"@.len() == 19);
    assert("/api/refresh/config"@.len() == 19);
    assert("/api/refresh/apps"@.len() == 17);
    assert("/api/rule"@.len() == 9);
    assert("/api/rule/del"@.len() == 13);
    assert("/api/rule/rename"@.len() == 16);
    assert("/api/suggest"@.len() == 12);
    assert("/api/refresh/app"@.len() == 16);
    assert("/api/refresh/app/del"@.len() == 20);
    assert("/api/status"@[1] != "/index.html"@[1]);
    assert("/api/config"@[1] != "/index.html"@[1]);
    assert("/api/config"@[5] != "/api/status"@[5]);
    assert("/api/refresh/config"@[13] != "/api/refresh/status"@[13]);
    assert("/api/refresh/app"@[6] != "/api/rule/rename"@[6]);
    assert("/api/status"@.take(5) =~= "/api/"@);
    assert("/api/rules"@.take(5) =~= "/api/"@);
    assert("/api/config"@.take(5) =~= "/api/"@);
    assert("/api/refresh/status"@.take(5) =~= "/api/"@);
    assert("/api/refresh/config"@.take(5) =~= "/api/"@);
    assert("/api/refresh/apps"@.take(5) =~= "/api/"@);
    assert("/api/rule"@.take(5) =~= "/api/"@);
    assert("/api/rule/del"@.take(5) =~= "/api/"@);
    assert("/api/rule/rename"@.take(5) =~= "/api/"@);
    assert("/api/suggest"@.take(5) =~= "/api/"@);
    assert("/api/refresh/app"@.take(5) =~= "/api/"@);
    assert("/api/refresh/app/del"@.take(5) =~= "/api/"@);
}

/// What the front end's own page and programs on this machine ask for is
/// allowed: the host is this machine, with the port or without, nothing says
/// that another site asks, and what is sent is JSON.
pub proof fn own_requests_are_allowed(q: RequestView)
    requires
        q.host == "127.0.0.1"@ || q.host == "127.0.0.1:8889"@ || q.host == "localhost"@ || q.host
            == "localhost:8889"@,
        q.origin.len() == 0 || q.origin == "null"@ || q.fetch_site.len() == 0 || q.fetch_site
            == "none"@ || q.fetch_site == "same-origin"@,
        q.method == "POST"@ ==> text::starts(q.content_type, "application/json"@),
    ensures
        is_allowed(q),
        route_of(q) != Route::Forbidden,
{
    reveal_strlit(":8889");
    reveal_strlit("127.0.0.1");
    reveal_strlit("127.0.0.1:8889");
    reveal_strlit("localhost");
    reveal_strlit("localhost:8889");
    assert("127.0.0.1:8889"@.skip(9) =~= ":8889"@);
    assert("127.0.0.1:8889"@.take(9) =~= "127.0.0.1"@);
    assert("localhost:8889"@.skip(9) =~= ":8889"@);
    assert("localhost:8889"@.take(9) =~= "localhost"@);
    assert("127.0.0.1"@.skip(4)[0] == '0');
    assert("localhost"@.skip(4)[0] == 'l');
    assert(":8889"@[0] == ':');
    paths_lead_to_their_answers(q);
}

/// What is sent as anything but JSON is refused, and so is every request to
/// another host, and every one from a page of another site.
pub proof fn other_requests_are_refused(q: RequestView)
    requires
        (q.method == "POST"@ && !text::starts(q.content_type, "application/json"@)) || (
        q.origin.len() > 0 && q.origin != "null"@ && q.fetch_site.len() > 0 && q.fetch_site
            != "none"@ && q.fetch_site != "same-origin"@) || !(q.host == "127.0.0.1"@ || q.host == "127.0.0.1:8889"@ || q.host == "localhost"@ || q.host
            == "localhost:8889"@),
    ensures
        route_of(q) == Route::Forbidden,
{
    reveal_strlit(":8889");
    reveal_strlit("127.0.0.1");
    reveal_strlit("127.0.0.1:8889");
    reveal_strlit("localhost");
    reveal_strlit("localhost:8889");
    if text::ends(q.host, ":8889"@) {
        let n = q.host.len() - 5;
        assert(q.host =~= q.host.take(n) + q.host.skip(n));
        if q.host.take(n) == "127.0.0.1"@ {
            assert(q.host =~= "127.0.0.1:8889"@);
        }
        if q.host.take(n) == "localhost"@ {
            assert(q.host =~= "localhost:8889"@);
        }
    }
}

/// A header line is read under its name, in whatever letters that is written:
/// its value, trimmed and in small letters, is what the request says, and
/// nothing else that the request says changes. The length of the body is the
/// number that is given, and a body in pieces is known as such.
#[verifier::rlimit(50)]
pub proof fn headers_are_read(h: HeaderView, v: Seq<char>, n: nat)
    requires
        n <= 0xffff_ffff,
    ensures
        header_step(h, "Host:"@ + v) == (HeaderView { host: lowered(text::trimmed(v)), ..h }),
        header_step(h, "host:"@ + v) == header_step(h, "Host:"@ + v),
        header_step(h, "Origin:"@ + v) == (HeaderView { origin: lowered(text::trimmed(v)), ..h }),
        header_step(h, "origin:"@ + v) == header_step(h, "Origin:"@ + v),
        header_step(h, "Sec-Fetch-Site:"@ + v) == (HeaderView { site: lowered(text::trimmed(v)), ..h }),
        header_step(h, "sec-fetch-site:"@ + v) == header_step(h, "Sec-Fetch-Site:"@ + v),
        header_step(h, "Content-Type:"@ + v) == (HeaderView { ctype: lowered(text::trimmed(v)), ..h }),
        header_step(h, "content-type:"@ + v) == header_step(h, "Content-Type:"@ + v),
        header_step(h, "Connection:"@ + v) == (HeaderView { conn: lowered(text::trimmed(v)), ..h }),
        header_step(h, "connection:"@ + v) == header_step(h, "Connection:"@ + v),
        header_step(h, "Content-Length: "@ + number::dec(n)) == (HeaderView { len: n, ..h }),
        header_step(h, "content-length:"@ + v) == header_step(h, "Content-Length:"@ + v),
        header_step(h, "Transfer-Encoding:"@ + v) == (HeaderView { chunked: true, ..h }),
        header_step(h, "User-Agent:"@ + v) == h,
        !v.contains(':') ==> header_step(h, v) == h,
{
    let d = number::dec(n);
    number::dec_reads_back(n);
    number::unsigned_reads_dec(n, usize::MAX as nat);
    reveal_strlit("Content-Length: ");
    reveal_strlit("Content-Length:");
    assert("Content-Length: "@ + d =~= "Content-Length:"@ + (seq![' '] + d));
    let sd = seq![' '] + d;
    assert(number::is_digit(d[0]) && number::is_digit(d[d.len() - 1]));
    assert(sd[1] == d[0] && sd[sd.len() - 1] == d[d.len() - 1]);
    text::lemma_trimmed_is(sd, 1, sd.len() as int);
    assert(sd.subrange(1, sd.len() as int) =~= d);
    lemma_header_host(h, v);
    lemma_header_origin(h, v);
    lemma_header_sec_fetch_site(h, v);
    lemma_header_content_type(h, v);
    lemma_header_connection(h, v);
    lemma_header_content_length(h, v);
    lemma_header_transfer_encoding(h, v);
    lemma_header_user_agent(h, v);
    lemma_header_content_length(h, sd);
    if !v.contains(':') {
        text::lemma_first(v, ':');
    }
}

/// A line is read by what stands before its first colon.
proof fn lemma_header(h: HeaderView, name: Seq<char>, key: Seq<char>, v: Seq<char>)
    requires
        name.len() > 0,
        !name.contains(':'),
        !text::is_space(name[0]),
        !text::is_space(name.last()),
        lowered(name) == key,
    ensures
        header_step(h, name + seq![':'] + v) == header_set(h, key, text::trimmed(v)),
{
    let line = name + seq![':'] + v;
    let k = name.len() as int;
    assert forall|j: int| 0 <= j < k implies line[j] != ':' by {
        assert(line[j] == name[j]);
    }
    text::lemma_first_at(line, ':', k);
    assert(line.take(k) =~= name);
    assert(line.skip(k + 1) =~= v);
    text::lemma_trimmed_id(name);
}

proof fn lemma_header_host(h: HeaderView, v: Seq<char>)
    ensures
        header_step(h, "Host:"@ + v) == (HeaderView { host: lowered(text::trimmed(v)), ..h }),
        header_step(h, "host:"@ + v) == (HeaderView { host: lowered(text::trimmed(v)), ..h }),
{
    reveal_strlit("host");
    reveal_strlit("origin");
    reveal_strlit("sec-fetch-site");
    reveal_strlit("content-type");
    reveal_strlit("content-length");
    reveal_strlit("connection");
    reveal_strlit("transfer-encoding");
    reveal_strlit("Host:");
    reveal_strlit("host:");
    reveal_strlit("Host");
    assert("origin"@.len() != "host"@.len());
    assert("sec-fetch-site"@.len() != "host"@.len());
    assert("content-type"@.len() != "host"@.len());
    assert("content-length"@.len() != "host"@.len());
    assert("connection"@.len() != "host"@.len());
    assert("transfer-encoding"@.len() != "host"@.len());
    let name = "Host"@;
    let key = "host"@;
    assert("Host:"@ =~= name + seq![':']);
    assert("host:"@ =~= key + seq![':']);
    assert(lowered(name) =~= key);
    assert(lowered(key) =~= key);
    if name.contains(':') {
        assert(name[name.index_of(':')] == ':');
    }
    if key.contains(':') {
        assert(key[key.index_of(':')] == ':');
    }
    lemma_header(h, name, key, v);
    lemma_header(h, key, key, v);
}

proof fn lemma_header_origin(h: HeaderView, v: Seq<char>)
    ensures
        header_step(h, "Origin:"@ + v) == (HeaderView { origin: lowered(text::trimmed(v)), ..h }),
        header_step(h, "origin:"@ + v) == (HeaderView { origin: lowered(text::trimmed(v)), ..h }),
{
    reveal_strlit("host");
    reveal_strlit("origin");
    reveal_strlit("sec-fetch-site");
    reveal_strlit("content-type");
    reveal_strlit("content-length");
    reveal_strlit("connection");
    reveal_strlit("transfer-encoding");
    reveal_strlit("Origin:");
    reveal_strlit("origin:");
    reveal_strlit("Origin");
    assert("host"@.len() != "origin"@.len());
    assert("sec-fetch-site"@.len() != "origin"@.len());
    assert("content-type"@.len() != "origin"@.len());
    assert("content-length"@.len() != "origin"@.len());
    assert("connection"@.len() != "origin"@.len());
    assert("transfer-encoding"@.len() != "origin"@.len());
    let name = "Origin"@;
    let key = "origin"@;
    assert("Origin:"@ =~= name + seq![':']);
    assert("origin:"@ =~= key + seq![':']);
    assert(lowered(name) =~= key);
    assert(lowered(key) =~= key);
    if name.contains(':') {
        assert(name[name.index_of(':')] == ':');
    }
    if key.contains(':') {
        assert(key[key.index_of(':')] == ':');
    }
    lemma_header(h, name, key, v);
    lemma_header(h, key, key, v);
}

proof fn lemma_header_sec_fetch_site(h: HeaderView, v: Seq<char>)
    ensures
        header_step(h, "Sec-Fetch-Site:"@ + v) == (HeaderView { site: lowered(text::trimmed(v)), ..h }),
        header_step(h, "sec-fetch-site:"@ + v) == (HeaderView { site: lowered(text::trimmed(v)), ..h }),
{
    reveal_strlit("host");
    reveal_strlit("origin");
    reveal_strlit("sec-fetch-site");
    reveal_strlit("content-type");
    reveal_strlit("content-length");
    reveal_strlit("connection");
    reveal_strlit("transfer-encoding");
    reveal_strlit("Sec-Fetch-Site:");
    reveal_strlit("sec-fetch-site:");
    reveal_strlit("Sec-Fetch-Site");
    assert("host"@.len() != "sec-fetch-site"@.len());
    assert("origin"@.len() != "sec-fetch-site"@.len());
    assert("content-type"@.len() != "sec-fetch-site"@.len());
    assert("content-length"@[0] != "sec-fetch-site"@[0]);
    assert("connection"@.len() != "sec-fetch-site"@.len());
    assert("transfer-encoding"@.len() != "sec-fetch-site"@.len());
    let name = "Sec-Fetch-Site"@;
    let key = "sec-fetch-site"@;
    assert("Sec-Fetch-Site:"@ =~= name + seq![':']);
    assert("sec-fetch-site:"@ =~= key + seq![':']);
    assert(lowered(name) =~= key);
    assert(lowered(key) =~= key);
    if name.contains(':') {
        assert(name[name.index_of(':')] == ':');
    }
    if key.contains(':') {
        assert(key[key.index_of(':')] == ':');
    }
    lemma_header(h, name, key, v);
    lemma_header(h, key, key, v);
}

proof fn lemma_header_content_type(h: HeaderView, v: Seq<char>)
    ensures
        header_step(h, "Content-Type:"@ + v) == (HeaderView { ctype: lowered(text::trimmed(v)), ..h }),
        header_step(h, "content-type:"@ + v) == (HeaderView { ctype: lowered(text::trimmed(v)), ..h }),
{
    reveal_strlit("host");
    reveal_strlit("origin");
    reveal_strlit("sec-fetch-site");
    reveal_strlit("content-type");
    reveal_strlit("content-length");
    reveal_strlit("connection");
    reveal_strlit("transfer-encoding");
    reveal_strlit("Content-Type:");
    reveal_strlit("content-type:");
    reveal_strlit("Content-Type");
    assert("host"@.len() != "content-type"@.len());
    assert("origin"@.len() != "content-type"@.len());
    assert("sec-fetch-site"@.len() != "content-type"@.len());
    assert("content-length"@.len() != "content-type"@.len());
    assert("connection"@.len() != "content-type"@.len());
    assert("transfer-encoding"@.len() != "content-type"@.len());
    let name = "Content-Type"@;
    let key = "content-type"@;
    assert("Content-Type:"@ =~= name + seq![':']);
    assert("content-type:"@ =~= key + seq![':']);
    assert(lowered(name) =~= key);
    assert(lowered(key) =~= key);
    if name.contains(':') {
        assert(name[name.index_of(':')] == ':');
    }
    if key.contains(':') {
        assert(key[key.index_of(':')] == ':');
    }
    lemma_header(h, name, key, v);
    lemma_header(h, key, key, v);
}

proof fn lemma_header_connection(h: HeaderView, v: Seq<char>)
    ensures
        header_step(h, "Connection:"@ + v) == (HeaderView { conn: lowered(text::trimmed(v)), ..h }),
        header_step(h, "connection:"@ + v) == (HeaderView { conn: lowered(text::trimmed(v)), ..h }),
{
    reveal_strlit("host");
    reveal_strlit("origin");
    reveal_strlit("sec-fetch-site");
    reveal_strlit("content-type");
    reveal_strlit("content-length");
    reveal_strlit("connection");
    reveal_strlit("transfer-encoding");
    reveal_strlit("Connection:");
    reveal_strlit("connection:");
    reveal_strlit("Connection");
    assert("host"@.len() != "connection"@.len());
    assert("origin"@.len() != "connection"@.len());
    assert("sec-fetch-site"@.len() != "connection"@.len());
    assert("content-type"@.len() != "connection"@.len());
    assert("content-length"@.len() != "connection"@.len());
    assert("transfer-encoding"@.len() != "connection"@.len());
    let name = "Connection"@;
    let key = "connection"@;
    assert("Connection:"@ =~= name + seq![':']);
    assert("connection:"@ =~= key + seq![':']);
    assert(lowered(name) =~= key);
    assert(lowered(key) =~= key);
    if name.contains(':') {
        assert(name[name.index_of(':')] == ':');
    }
    if key.contains(':') {
        assert(key[key.index_of(':')] == ':');
    }
    lemma_header(h, name, key, v);
    lemma_header(h, key, key, v);
}

proof fn lemma_header_content_length(h: HeaderView, v: Seq<char>)
    ensures
        header_step(h, "Content-Length:"@ + v) == (HeaderView { len: length_in(text::trimmed(v)), ..h }),
        header_step(h, "content-length:"@ + v) == (HeaderView { len: length_in(text::trimmed(v)), ..h }),
{
    reveal_strlit("host");
    reveal_strlit("origin");
    reveal_strlit("sec-fetch-site");
    reveal_strlit("content-type");
    reveal_strlit("content-length");
    reveal_strlit("connection");
    reveal_strlit("transfer-encoding");
    reveal_strlit("Content-Length:");
    reveal_strlit("content-length:");
    reveal_strlit("Content-Length");
    assert("host"@.len() != "content-length"@.len());
    assert("origin"@.len() != "content-length"@.len());
    assert("sec-fetch-site"@[0] != "content-length"@[0]);
    assert("content-type"@.len() != "content-length"@.len());
    assert("connection"@.len() != "content-length"@.len());
    assert("transfer-encoding"@.len() != "content-length"@.len());
    let name = "Content-Length"@;
    let key = "content-length"@;
    assert("Content-Length:"@ =~= name + seq![':']);
    assert("content-length:"@ =~= key + seq![':']);
    assert(lowered(name) =~= key);
    assert(lowered(key) =~= key);
    if name.contains(':') {
        assert(name[name.index_of(':')] == ':');
    }
    if key.contains(':') {
        assert(key[key.index_of(':')] == ':');
    }
    lemma_header(h, name, key, v);
    lemma_header(h, key, key, v);
}

proof fn lemma_header_transfer_encoding(h: HeaderView, v: Seq<char>)
    ensures
        header_step(h, "Transfer-Encoding:"@ + v) == (HeaderView { chunked: true, ..h }),
        header_step(h, "transfer-encoding:"@ + v) == (HeaderView { chunked: true, ..h }),
{
    reveal_strlit("host");
    reveal_strlit("origin");
    reveal_strlit("sec-fetch-site");
    reveal_strlit("content-type");
    reveal_strlit("content-length");
    reveal_strlit("connection");
    reveal_strlit("transfer-encoding");
    reveal_strlit("Transfer-Encoding:");
    reveal_strlit("transfer-encoding:");
    reveal_strlit("Transfer-Encoding");
    assert("host"@.len() != "transfer-encoding"@.len());
    assert("origin"@.len() != "transfer-encoding"@.len());
    assert("sec-fetch-site"@.len() != "transfer-encoding"@.len());
    assert("content-type"@.len() != "transfer-encoding"@.len());
    assert("content-length"@.len() != "transfer-encoding"@.len());
    assert("connection"@.len() != "transfer-encoding"@.len());
    let name = "Transfer-Encoding"@;
    let key = "transfer-encoding"@;
    assert("Transfer-Encoding:"@ =~= name + seq![':']);
    assert("transfer-encoding:"@ =~= key + seq![':']);
    assert(lowered(name) =~= key);
    assert(lowered(key) =~= key);
    if name.contains(':') {
        assert(name[name.index_of(':')] == ':');
    }
    if key.contains(':') {
        assert(key[key.index_of(':')] == ':');
    }
    lemma_header(h, name, key, v);
    lemma_header(h, key, key, v);
}

proof fn lemma_header_user_agent(h: HeaderView, v: Seq<char>)
    ensures
        header_step(h, "User-Agent:"@ + v) == h,
        header_step(h, "user-agent:"@ + v) == h,
{
    reveal_strlit("host");
    reveal_strlit("origin");
    reveal_strlit("sec-fetch-site");
    reveal_strlit("content-type");
    reveal_strlit("content-length");
    reveal_strlit("connection");
    reveal_strlit("transfer-encoding");
    reveal_strlit("User-Agent:");
    reveal_strlit("user-agent:");
    reveal_strlit("User-Agent");
    reveal_strlit("user-agent");
    assert("host"@.len() != "user-agent"@.len());
    assert("origin"@.len() != "user-agent"@.len());
    assert("sec-fetch-site"@.len() != "user-agent"@.len());
    assert("content-type"@.len() != "user-agent"@.len());
    assert("content-length"@.len() != "user-agent"@.len());
    assert("connection"@[0] != "user-agent"@[0]);
    assert("transfer-encoding"@.len() != "user-agent"@.len());
    let name = "User-Agent"@;
    let key = "user-agent"@;
    assert("User-Agent:"@ =~= name + seq![':']);
    assert("user-agent:"@ =~= key + seq![':']);
    assert(lowered(name) =~= key);
    assert(lowered(key) =~= key);
    if name.contains(':') {
        assert(name[name.index_of(':')] == ':');
    }
    if key.contains(':') {
        assert(key[key.index_of(':')] == ':');
    }
    lemma_header(h, name, key, v);
    lemma_header(h, key, key, v);
}

/// The first line of a request gives its method and its path, and what stands
/// behind a `?` of the path does not count.
pub proof fn first_lines_are_read(
    head: Seq<char>,
    method: Seq<char>,
    path: Seq<char>,
    query: Seq<char>,
)
    requires
        text::line_seq(head).len() > 0,
        is_visible(method),
        is_visible(path),
        is_visible(query),
        !path.contains('?'),
        text::line_seq(head)[0] == method + seq![' '] + path + seq!['?'] + query || text::line_seq(
            head,
        )[0] == method + seq![' '] + path,
    ensures
        request_of(head) matches Some((q, _)) ==> q.method == method && q.path == path,
{
    let line = text::line_seq(head)[0];
    let ws = text::words(line);
    if line == method + seq![' '] + path {
        lemma_two_words(method, path);
        text::lemma_first(path, '?');
        assert(path.take(path.len() as int) =~= path);
    } else {
        let full = path + seq!['?'] + query;
        assert(line =~= method + seq![' '] + full);
        assert(is_visible(full)) by {
            assert forall|i: int| 0 <= i < full.len() implies !text::is_space(#[trigger] full[i]) by {
                if i < path.len() {
                    assert(full[i] == path[i]);
                } else if i > path.len() {
                    assert(full[i] == query[i - path.len() - 1]);
                }
            }
        }
        lemma_two_words(method, full);
        assert forall|j: int| 0 <= j < path.len() implies full[j] != '?' by {
            assert(full[j] == path[j]);
        }
        text::lemma_first_at(full, '?', path.len() as int);
        assert(full.take(path.len() as int) =~= path);
    }
}

/// A text without white space.
pub open spec fn is_visible(s: Seq<char>) -> bool {
    s.len() > 0 && forall|i: int| 0 <= i < s.len() ==> !text::is_space(#[trigger] s[i])
}

pub(crate) proof fn lemma_two_words(a: Seq<char>, b: Seq<char>)
    requires
        is_visible(a),
        is_visible(b),
    ensures
        text::words(a + seq![' '] + b) == seq![a, b],
{
    let s = a + seq![' '] + b;
    let n = a.len() as int;
    assert(s[0] == a[0]);
    assert(!text::is_space(a[0]));
    assert forall|j: int| 0 <= j < n implies !text::is_space(#[trigger] s[j]) by {
        assert(s[j] == a[j]);
    }
    text::lemma_word_len(s, n);
    assert(s.take(n) =~= a);
    let rest = s.skip(n);
    assert(rest[0] == ' ');
    let tail = rest.skip(1);
    assert(tail =~= b);
    assert(!text::is_space(b[0]));
    assert forall|j: int| 0 <= j < b.len() implies !text::is_space(#[trigger] b[j]) by {}
    text::lemma_word_len(b, b.len() as int);
    assert(b.take(b.len() as int) =~= b);
    assert(b.skip(b.len() as int) =~= Seq::<char>::empty());
    reveal_with_fuel(text::words, 4);
}

/// A connection is kept, unless the request asks for it to be closed; one of the
/// older version is kept only where the request asks for that.
pub proof fn connections_are_kept(conn: Seq<char>)
    ensures
        keeps_alive("HTTP/1.1"@, seq![]),
        keeps_alive("HTTP/1.1"@, "keep-alive"@),
        !keeps_alive("HTTP/1.1"@, "close"@),
        !keeps_alive("HTTP/1.0"@, seq![]),
        keeps_alive("HTTP/1.0"@, "keep-alive"@),
{
    reveal_strlit("HTTP/1.1");
    reveal_strlit("HTTP/1.0");
    reveal_strlit("keep-alive");
    reveal_strlit("close");
    assert("HTTP/1.1"@[7] != "HTTP/1.0"@[7]);
    let none = Seq::<char>::empty();
    assert forall|i: int| 0 <= i <= none.len() implies !text::starts(
        #[trigger] none.skip(i),
        "close"@,
    ) && !text::starts(none.skip(i), "keep-alive"@) by {}
    let k = "keep-alive"@;
    let c = "close"@;
    assert(k.skip(0).take(10) =~= k);
    assert(text::starts(k.skip(0), k));
    assert(c.skip(0).take(5) =~= c);
    assert(text::starts(c.skip(0), c));
    assert forall|i: int| 0 <= i <= k.len() implies !text::starts(#[trigger] k.skip(i), c) by {
        if text::starts(k.skip(i), c) {
            assert(k.skip(i).take(5)[0] == k[i]);
            assert(k[i] == 'c');
        }
    }
}

/// Nothing is answered, but that it is forbidden, to a request that names
/// another host.
pub proof fn foreign_hosts_are_refused(q: RequestView)
    requires
        bare_host(q.host) != "127.0.0.1"@,
        bare_host(q.host) != "localhost"@,
    ensures
        route_of(q) == Route::Forbidden,
{
}

/// A page of another site can change nothing: its requests say where they come
/// from, and are refused.
pub proof fn foreign_pages_are_refused(q: RequestView)
    requires
        q.origin.len() > 0,
        q.origin != "null"@,
        q.fetch_site == "cross-site"@ || q.fetch_site == "same-site"@,
    ensures
        route_of(q) == Route::Forbidden,
{
    reveal_strlit("cross-site");
    reveal_strlit("same-site");
    reveal_strlit("none");
    reveal_strlit("same-origin");
    assert("cross-site"@.len() == 10);
    assert("same-site"@.len() == 9);
}

/// Whatever is not allowed or does not exist changes nothing: what changes
/// something is asked for by a POST request with JSON.
pub proof fn only_json_posts_change(q: RequestView)
    requires
        route_of(q) == Route::RuleSet || route_of(q) == Route::RuleDelete || route_of(q)
            == Route::RuleRename || route_of(q) == Route::ConfigSet || route_of(q)
            == Route::RefreshConfigSet || route_of(q) == Route::RefreshAppAdd || route_of(q)
            == Route::RefreshAppDelete,
    ensures
        q.method == "POST"@,
        text::starts(q.content_type, "application/json"@),
        is_allowed(q),
{
}

/// An answer starts with its status and says what follows: the type and the
/// length of the body, and whether the connection is kept.
#[verifier::rlimit(50)]
pub proof fn answers_say_what_follows(ctype: Seq<char>, len: nat)
    ensures
        response_text(200, ctype, len, true) == "HTTP/1.1 200 OK\r\nContent-Type: "@ + ctype
            + "\r\nContent-Length: "@ + number::dec(len)
            + "\r\nCache-Control: no-store\r\nConnection: close\r\n\r\n"@,
        response_text(404, ctype, len, false) == "HTTP/1.1 404 Not Found\r\nContent-Type: "@ + ctype
            + "\r\nContent-Length: "@ + number::dec(len)
            + "\r\nCache-Control: no-store\r\nConnection: keep-alive\r\n\r\n"@,
        reason(400) == "Bad Request"@,
        reason(403) == "Forbidden"@,
{
    reveal_strlit("HTTP/1.1 ");
    reveal_strlit("OK");
    reveal_strlit("Not Found");
    reveal_strlit("\r\nContent-Type: ");
    reveal_strlit("\r\nCache-Control: no-store\r\nConnection: ");
    reveal_strlit("close");
    reveal_strlit("keep-alive");
    reveal_strlit("\r\n\r\n");
    reveal_strlit("HTTP/1.1 200 OK\r\nContent-Type: ");
    reveal_strlit("HTTP/1.1 404 Not Found\r\nContent-Type: ");
    reveal_strlit("\r\nCache-Control: no-store\r\nConnection: close\r\n\r\n");
    reveal_strlit("\r\nCache-Control: no-store\r\nConnection: keep-alive\r\n\r\n");
    number::digits_count_tens(20, 0);
    number::digits_count_tens(2, 0);
    number::digits_count_tens(40, 4);
    number::digits_count_tens(4, 0);
    let a = number::dec(200);
    let b = number::dec(404);
    assert(a =~= seq!['2', '0', '0']);
    assert(b =~= seq!['4', '0', '4']);
    assert("HTTP/1.1 200 OK\r\nContent-Type: "@ =~= "HTTP/1.1 "@ + a + seq![' '] + "OK"@
        + "\r\nContent-Type: "@);
    assert("HTTP/1.1 404 Not Found\r\nContent-Type: "@ =~= "HTTP/1.1 "@ + b + seq![' ']
        + "Not Found"@ + "\r\nContent-Type: "@);
    assert("\r\nCache-Control: no-store\r\nConnection: close\r\n\r\n"@
        =~= "\r\nCache-Control: no-store\r\nConnection: "@ + "close"@ + "\r\n\r\n"@);
    assert("\r\nCache-Control: no-store\r\nConnection: keep-alive\r\n\r\n"@
        =~= "\r\nCache-Control: no-store\r\nConnection: "@ + "keep-alive"@ + "\r\n\r\n"@);
    assert(response_text(200, ctype, len, true) =~= "HTTP/1.1 200 OK\r\nContent-Type: "@ + ctype
        + "\r\nContent-Length: "@ + number::dec(len)
        + "\r\nCache-Control: no-store\r\nConnection: close\r\n\r\n"@);
    assert(response_text(404, ctype, len, false) =~= "HTTP/1.1 404 Not Found\r\nContent-Type: "@
        + ctype + "\r\nContent-Length: "@ + number::dec(len)
        + "\r\nCache-Control: no-store\r\nConnection: keep-alive\r\n\r\n"@);
}

/// A head with a method and a path is a request, with a body as long as it says;
/// one whose body is too long or comes in pieces is not.
pub proof fn heads_are_requests(head: Seq<char>)
    requires
        text::line_seq(head).len() > 0,
    ensures
        ({
            let lines = text::line_seq(head);
            let h = headers_after(lines, lines.len());
            &&& text::words(lines[0]).len() >= 2 && !h.chunked && h.len <= 16384 ==> (request_of(
                head,
            ) matches Some((q, n)) && n == h.len && q.host == h.host && q.origin == h.origin
                && q.fetch_site == h.site && q.content_type == h.ctype)
            &&& h.chunked || h.len > 16384 || text::words(lines[0]).len() < 2 ==> request_of(
                head,
            ) is None
        }),
        headers_after(text::line_seq(head), 1) == (HeaderView {
            host: seq![],
            origin: seq![],
            site: seq![],
            ctype: seq![],
            conn: seq![],
            len: 0,
            chunked: false,
        }),
{
}

/// Every line of a head behind the first is read as a header, in its order.
pub proof fn every_header_is_read(lines: Seq<Seq<char>>, n: nat)
    requires
        1 <= n < lines.len(),
    ensures
        headers_after(lines, n + 1) == header_step(headers_after(lines, n), lines[n as int]),
{
}

} // verus!
