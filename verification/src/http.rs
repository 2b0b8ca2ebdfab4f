//! Requests as the proxy reads and rewrites them.

use crate::startup;
use crate::string_map;
use crate::text;
use vstd::prelude::*;

verus! {

// ---------------------------------------------------------------------------------------------
// Requests
// ---------------------------------------------------------------------------------------------

/// A header: its name in lower case, and the bytes of its value.
#[derive(Debug)]
pub struct Header {
    pub name: String,
    pub value: Vec<u8>,
}

/// The mathematical value of a `Header`.
#[verifier::ext_equal]
pub struct HeaderView {
    pub name: Seq<char>,
    pub value: Seq<u8>,
}

impl View for Header {
    type V = HeaderView;

    open spec fn view(&self) -> HeaderView {
        HeaderView { name: self.name@, value: self.value@ }
    }
}

impl DeepView for Header {
    type V = HeaderView;

    open spec fn deep_view(&self) -> HeaderView {
        self@
    }
}

impl Clone for Header {
    fn clone(&self) -> (r: Self)
        ensures
            r@ == self@,
    {
        let value: Vec<u8> = self.value.clone();
        assert(value@ == self.value@);
        Header { name: self.name.clone(), value }
    }
}

/// What comes before the body of a request.
#[derive(Debug)]
pub struct RequestHead {
    /// The method.
    pub method: String,
    /// The path of the URI.
    pub path: String,
    /// The path of the URI with its query, where the URI has one.
    pub path_and_query: Option<String>,
    /// The authority of the URI, where it has one.
    pub authority: Option<String>,
    /// The headers, in the order that they are listed in.
    pub headers: Vec<Header>,
}

/// The mathematical value of a `RequestHead`.
#[verifier::ext_equal]
pub struct RequestView {
    pub method: Seq<char>,
    pub path: Seq<char>,
    pub path_and_query: Option<Seq<char>>,
    pub authority: Option<Seq<char>>,
    pub headers: Seq<HeaderView>,
}

impl View for RequestHead {
    type V = RequestView;

    open spec fn view(&self) -> RequestView {
        RequestView {
            method: self.method@,
            path: self.path@,
            path_and_query: self.path_and_query.deep_view(),
            authority: self.authority.deep_view(),
            headers: self.headers.deep_view(),
        }
    }
}

// ---------------------------------------------------------------------------------------------
// Reading headers
// ---------------------------------------------------------------------------------------------

/// `b` is a printable ASCII character, a space or a tab.
pub open spec fn is_visible(b: u8) -> bool {
    (32 <= b && b < 127) || b == 9
}

/// The text of a header value; none where it holds anything but visible ASCII characters.
pub open spec fn header_text(value: Seq<u8>) -> Option<Seq<char>> {
    if forall|i: int| 0 <= i < value.len() ==> is_visible(#[trigger] value[i]) {
        Some(value.map_values(|b: u8| b as char))
    } else {
        None
    }
}

/// Calls `HeaderValue::to_str` of the `http` crate, which `hyper` hands on, on the value that
/// `HeaderValue::from_bytes` makes of the bytes.
///
/// Claimed of it: a value whose bytes are all printable ASCII, space or tab is given as the text of
/// the same characters, and any other is refused.
#[verifier::external_body]
fn value_to_str(value: &Vec<u8>) -> (r: Option<String>)
    ensures
        r.deep_view() == header_text(value@),
{
    let v = hyper::header::HeaderValue::from_bytes(value).ok()?;
    v.to_str().ok().map(|s| s.to_string())
}

/// The first value of a header.
pub open spec fn first_value(headers: Seq<HeaderView>, name: Seq<char>) -> Option<Seq<u8>>
    decreases headers.len(),
{
    if headers.len() == 0 {
        None
    } else if headers[0].name == name {
        Some(headers[0].value)
    } else {
        first_value(headers.skip(1), name)
    }
}

/// The text of the first value of a header.
pub open spec fn first_text(headers: Seq<HeaderView>, name: Seq<char>) -> Option<Seq<char>> {
    match first_value(headers, name) {
        Some(value) => header_text(value),
        None => None,
    }
}

/// Where a header first stands.
fn find_header(headers: &Vec<Header>, name: &str) -> (r: Option<usize>)
    ensures
        match r {
            Some(i) => i < headers@.len() && first_value(headers.deep_view(), name@) == Some(
                headers@[i as int].value@,
            ),
            None => first_value(headers.deep_view(), name@) is None,
        },
{
    let ghost all = headers.deep_view();
    let mut i: usize = 0;
    assert(all.skip(0) == all);
    while i < headers.len()
        invariant
            i <= headers@.len(),
            all == headers.deep_view(),
            first_value(all, name@) == first_value(all.skip(i as int), name@),
        decreases headers.len() - i,
    {
        assert(all.skip(i as int)[0] == headers@[i as int]@);
        if text::equal(headers[i].name.as_str(), name) {
            return Some(i);
        }
        assert(all.skip(i as int).skip(1) == all.skip(i + 1));
        i = i + 1;
    }
    None
}

/// The text of the first value of a header.
fn get_text(headers: &Vec<Header>, name: &str) -> (r: Option<String>)
    ensures
        r.deep_view() == first_text(headers.deep_view(), name@),
{
    match find_header(headers, name) {
        Some(i) => value_to_str(&headers[i].value),
        None => None,
    }
}

/// The first value of a header, or else `default`.
fn get_value(headers: &Vec<Header>, name: &str, default: &str) -> (r: Vec<u8>)
    ensures
        r@ == (match first_value(headers.deep_view(), name@) {
            Some(value) => value,
            None => vstd::utf8::encode_utf8(default@),
        }),
{
    match find_header(headers, name) {
        Some(i) => {
            let value: Vec<u8> = headers[i].value.clone();
            assert(value@ == headers@[i as int].value@);
            value
        },
        None => bytes_of(default),
    }
}

/// The bytes of a text.
fn bytes_of(s: &str) -> (r: Vec<u8>)
    ensures
        r@ == vstd::utf8::encode_utf8(s@),
{
    let b: &[u8] = s.as_bytes();
    let mut r: Vec<u8> = Vec::new();
    let mut i: usize = 0;
    while i < b.len()
        invariant
            i <= b@.len(),
            r@ == b@.take(i as int),
        decreases b.len() - i,
    {
        r.push(b[i]);
        assert(b@.take(i + 1) == b@.take(i as int).push(b@[i as int]));
        i = i + 1;
    }
    assert(b@.take(b@.len() as int) == b@);
    r
}

// ---------------------------------------------------------------------------------------------
// What a request asks for
// ---------------------------------------------------------------------------------------------

/// The host that a request is for: the text of its `host` header, or else the authority of its URI,
/// up to the first `:`.
pub open spec fn host_of(req: RequestView) -> Seq<char> {
    let full = match first_text(req.headers, "host"@) {
        Some(host) => host,
        None => match req.authority {
            Some(authority) => authority,
            None => Seq::empty(),
        },
    };
    text::before_first(full, ':')
}

/// The host that a request is for.
pub fn resolve_host(req: &RequestHead) -> (r: String)
    ensures
        r@ == host_of(req@),
{
    match get_text(&req.headers, "host") {
        Some(host) => text::before(host.as_str(), ':').to_string(),
        None => match &req.authority {
            Some(authority) => text::before(authority.as_str(), ':').to_string(),
            None => {
                let r: String = text::before("", ':').to_string();
                proof {
                    reveal_strlit("");
                    assert(""@ == Seq::<char>::empty());
                }
                r
            },
        },
    }
}

/// An ASCII letter in lower case; any other character as it is.
pub open spec fn lower(c: char) -> char {
    if 'A' <= c <= 'Z' {
        (c as int + 32) as char
    } else {
        c
    }
}

/// The ASCII letters of a text in lower case.
pub open spec fn lower_all(s: Seq<char>) -> Seq<char> {
    s.map_values(|c: char| lower(c))
}

/// Whether two characters are equal but for the case of ASCII letters.
fn same_letter(a: char, b: char) -> (r: bool)
    ensures
        r == (lower(a) == lower(b)),
{
    let x: u32 = if 'A' <= a && a <= 'Z' {
        a as u32 + 32
    } else {
        a as u32
    };
    let y: u32 = if 'A' <= b && b <= 'Z' {
        b as u32 + 32
    } else {
        b as u32
    };
    x == y
}

/// Whether two texts are equal but for the case of ASCII letters.
pub fn equal_ignoring_case(a: &str, b: &str) -> (r: bool)
    ensures
        r == (lower_all(a@) == lower_all(b@)),
{
    let x: Vec<char> = text::chars_of(a);
    let y: Vec<char> = text::chars_of(b);
    if x.len() != y.len() {
        assert(lower_all(a@).len() != lower_all(b@).len());
        return false;
    }
    let mut i: usize = 0;
    while i < x.len()
        invariant
            i <= x@.len() == y@.len(),
            x@ == a@,
            y@ == b@,
            forall|j: int| 0 <= j < i ==> lower(a@[j]) == lower(b@[j]),
        decreases x.len() - i,
    {
        if !same_letter(x[i], y[i]) {
            assert(lower_all(a@)[i as int] != lower_all(b@)[i as int]);
            return false;
        }
        i = i + 1;
    }
    assert(lower_all(a@) =~= lower_all(b@));
    true
}

/// The request asks for a WebSocket: its `upgrade` header says so, in any case of letters.
pub open spec fn asks_for_websocket(req: RequestView) -> bool {
    first_text(req.headers, "upgrade"@) matches Some(v) && lower_all(v) == lower_all("websocket"@)
}

/// Whether the request asks for a WebSocket.
pub fn is_websocket(req: &RequestHead) -> (r: bool)
    ensures
        r == asks_for_websocket(req@),
{
    match get_text(&req.headers, "upgrade") {
        Some(v) => equal_ignoring_case(v.as_str(), "websocket"),
        None => false,
    }
}

/// The headers are those of a gRPC call: the content type begins with `application/grpc`.
pub open spec fn has_grpc_type(headers: Seq<HeaderView>) -> bool {
    first_text(headers, "content-type"@) matches Some(v) && "application/grpc"@.is_prefix_of(v)
}

/// Whether a request is a gRPC call.
pub fn is_grpc(headers: &Vec<Header>) -> (r: bool)
    ensures
        r == has_grpc_type(headers.deep_view()),
{
    match get_text(headers, "content-type") {
        Some(v) => text::starts_with(v.as_str(), "application/grpc"),
        None => false,
    }
}

/// A path without its leading slashes.
pub fn trim_leading_slash(path: &str) -> (r: String)
    ensures
        r@ == text::trim_leading(path@, '/'),
{
    text::trim_start_matches(path, '/').to_string()
}

// ---------------------------------------------------------------------------------------------
// Forwarded requests
// ---------------------------------------------------------------------------------------------

/// A request to be sent on. Its body is that of the request that it forwards.
#[derive(Debug)]
pub struct Forward {
    /// The method.
    pub method: String,
    /// The URL.
    pub url: String,
    /// The headers.
    pub headers: Vec<Header>,
    /// Whether it is sent over HTTP/2.
    pub http2: bool,
}

/// The mathematical value of a `Forward`.
#[verifier::ext_equal]
pub struct ForwardView {
    pub method: Seq<char>,
    pub url: Seq<char>,
    pub headers: Seq<HeaderView>,
    pub http2: bool,
}

impl View for Forward {
    type V = ForwardView;

    open spec fn view(&self) -> ForwardView {
        ForwardView {
            method: self.method@,
            url: self.url@,
            headers: self.headers.deep_view(),
            http2: self.http2,
        }
    }
}

/// Headers other than `host`.
pub open spec fn not_host() -> spec_fn(HeaderView) -> bool {
    |h: HeaderView| h.name != "host"@
}

/// The headers without `host`, which is that of the new target.
pub open spec fn without_host(headers: Seq<HeaderView>) -> Seq<HeaderView> {
    headers.filter(not_host())
}

/// The `host` header of a request, where it has one.
pub open spec fn host_header(headers: Seq<HeaderView>) -> Seq<HeaderView> {
    match first_value(headers, "host"@) {
        Some(value) => seq![HeaderView { name: "host"@, value }],
        None => Seq::empty(),
    }
}

/// The path and query that a request asks for; `/` where its URI has none.
pub open spec fn wanted(req: RequestView) -> Seq<char> {
    match req.path_and_query {
        Some(pq) => pq,
        None => "/"@,
    }
}

/// The request to a container: the method, path and query, and headers of the client's request but `host`.
pub open spec fn container_forward(req: RequestView, addr: Seq<char>) -> ForwardView {
    ForwardView {
        method: req.method,
        url: startup::http_url(addr, wanted(req)),
        headers: without_host(req.headers),
        http2: has_grpc_type(without_host(req.headers)),
    }
}

/// The request to a static target: that to a container, but with the client's `host`, by which the
/// target may route further.
pub open spec fn static_forward(req: RequestView, addr: Seq<char>) -> ForwardView {
    let headers = without_host(req.headers) + host_header(req.headers);
    ForwardView {
        method: req.method,
        url: startup::http_url(addr, wanted(req)),
        headers,
        http2: has_grpc_type(headers),
    }
}

/// The WebSocket request to a container: all headers of the client's request but `host`, and so with the
/// upgrade headers, the protocols and the extensions that the client asks for. The query is not
/// sent.
pub open spec fn container_upgrade(req: RequestView, addr: Seq<char>) -> ForwardView {
    ForwardView {
        method: "GET"@,
        url: startup::http_url(addr, req.path),
        headers: without_host(req.headers),
        http2: false,
    }
}

/// A header with a value in ASCII.
pub open spec fn plain_header(name: &str, value: &str) -> HeaderView {
    HeaderView { name: name@, value: vstd::utf8::encode_utf8(value@) }
}

/// A header with the first value that the request has for it, or else `default`.
pub open spec fn copied_header(headers: Seq<HeaderView>, name: &str, default: &str) -> HeaderView {
    HeaderView {
        name: name@,
        value: match first_value(headers, name@) {
            Some(value) => value,
            None => vstd::utf8::encode_utf8(default@),
        },
    }
}

/// The WebSocket request to a static target: the upgrade headers, the client's key and version, and
/// the client's `host`. The query is not sent.
pub open spec fn static_upgrade(req: RequestView, addr: Seq<char>) -> ForwardView {
    ForwardView {
        method: "GET"@,
        url: startup::http_url(addr, req.path),
        headers: seq![
            plain_header("connection", "upgrade"),
            plain_header("upgrade", "websocket"),
            copied_header(req.headers, "sec-websocket-key", ""),
            copied_header(req.headers, "sec-websocket-version", "13"),
        ] + host_header(req.headers),
        http2: false,
    }
}

/// Drops the `host` headers.
fn drop_host(headers: &Vec<Header>) -> (r: Vec<Header>)
    ensures
        r.deep_view() == without_host(headers.deep_view()),
{
    let ghost all = headers.deep_view();
    let ghost p = not_host();
    let mut r: Vec<Header> = Vec::new();
    let mut i: usize = 0;
    proof {
        reveal(Seq::filter);
        assert(all.take(0) == Seq::<HeaderView>::empty());
        assert(r.deep_view() == all.take(0).filter(p));
    }
    while i < headers.len()
        invariant
            i <= headers@.len(),
            all == headers.deep_view(),
            p == not_host(),
            r.deep_view() == all.take(i as int).filter(p),
        decreases headers.len() - i,
    {
        let ghost before = r.deep_view();
        proof {
            reveal(Seq::filter);
            let next = all.take(i + 1);
            assert(next.drop_last() == all.take(i as int));
            assert(next.last() == headers@[i as int]@);
        }
        if !text::equal(headers[i].name.as_str(), "host") {
            r.push(headers[i].clone());
            assert(r.deep_view() == before.push(headers@[i as int]@));
        }
        i = i + 1;
    }
    assert(all.take(all.len() as int) == all);
    r
}

/// Adds the client's `host` header.
fn push_host(out: &mut Vec<Header>, headers: &Vec<Header>)
    ensures
        final(out).deep_view() == old(out).deep_view() + host_header(headers.deep_view()),
{
    let ghost before = out.deep_view();
    match find_header(headers, "host") {
        Some(i) => {
            let value: Vec<u8> = headers[i].value.clone();
            assert(value@ == headers@[i as int].value@);
            out.push(Header { name: "host".to_string(), value });
            assert(out.deep_view() == before + host_header(headers.deep_view()));
        },
        None => {
            assert(before + host_header(headers.deep_view()) == before);
        },
    }
}

/// The URL of the path and query that a request asks for, at another address.
fn url_at(req: &RequestHead, addr: &str) -> (r: String)
    ensures
        r@ == startup::http_url(addr@, wanted(req@)),
{
    match &req.path_and_query {
        Some(pq) => startup::join_url(addr, pq.as_str()),
        None => startup::join_url(addr, "/"),
    }
}

/// Rewrites a request for a container.
pub fn forward_to_container(req: &RequestHead, addr: &str) -> (r: Forward)
    ensures
        r@ == container_forward(req@, addr@),
{
    let headers: Vec<Header> = drop_host(&req.headers);
    let http2: bool = is_grpc(&headers);
    Forward { method: req.method.clone(), url: url_at(req, addr), headers, http2 }
}

/// Rewrites a request for a static target.
pub fn forward_to_static(req: &RequestHead, addr: &str) -> (r: Forward)
    ensures
        r@ == static_forward(req@, addr@),
{
    let mut headers: Vec<Header> = drop_host(&req.headers);
    push_host(&mut headers, &req.headers);
    let http2: bool = is_grpc(&headers);
    Forward { method: req.method.clone(), url: url_at(req, addr), headers, http2 }
}

/// Rewrites a WebSocket request for a container.
pub fn upgrade_to_container(req: &RequestHead, addr: &str) -> (r: Forward)
    ensures
        r@ == container_upgrade(req@, addr@),
{
    Forward {
        method: "GET".to_string(),
        url: startup::join_url(addr, req.path.as_str()),
        headers: drop_host(&req.headers),
        http2: false,
    }
}

/// Rewrites a WebSocket request for a static target.
pub fn upgrade_to_static(req: &RequestHead, addr: &str) -> (r: Forward)
    ensures
        r@ == static_upgrade(req@, addr@),
{
    let mut headers: Vec<Header> = Vec::new();
    headers.push(Header { name: "connection".to_string(), value: bytes_of("upgrade") });
    headers.push(Header { name: "upgrade".to_string(), value: bytes_of("websocket") });
    headers.push(
        Header {
            name: "sec-websocket-key".to_string(),
            value: get_value(&req.headers, "sec-websocket-key", ""),
        },
    );
    headers.push(
        Header {
            name: "sec-websocket-version".to_string(),
            value: get_value(&req.headers, "sec-websocket-version", "13"),
        },
    );
    proof {
        let v = req@.headers;
        assert(headers.deep_view() == seq![
            plain_header("connection", "upgrade"),
            plain_header("upgrade", "websocket"),
            copied_header(v, "sec-websocket-key", ""),
            copied_header(v, "sec-websocket-version", "13"),
        ]);
    }
    push_host(&mut headers, &req.headers);
    Forward {
        method: "GET".to_string(),
        url: startup::join_url(addr, req.path.as_str()),
        headers,
        http2: false,
    }
}

// ---------------------------------------------------------------------------------------------
// Headers of an upgrade response
// ---------------------------------------------------------------------------------------------

/// Headers as pairs, each name once.
pub type HeaderTable = Seq<(Seq<char>, Seq<u8>)>;

/// The headers that are handed on when a connection is upgraded: of each name the last value, where
/// the name first stands.
pub open spec fn last_values(headers: Seq<HeaderView>) -> HeaderTable
    decreases headers.len(),
{
    if headers.len() == 0 {
        Seq::empty()
    } else {
        string_map::inserted(
            last_values(headers.drop_last()),
            headers.last().name,
            headers.last().value,
        )
    }
}

/// The headers of a table.
pub open spec fn header_list(table: HeaderTable) -> Seq<HeaderView> {
    table.map_values(|e: (Seq<char>, Seq<u8>)| HeaderView { name: e.0, value: e.1 })
}

/// The headers that are handed on when a connection is upgraded.
pub fn upgrade_headers(headers: &Vec<Header>) -> (r: Vec<Header>)
    ensures
        r.deep_view() == header_list(last_values(headers.deep_view())),
{
    let ghost all = headers.deep_view();
    let mut r: Vec<Header> = Vec::new();
    let mut i: usize = 0;
    proof {
        assert(all.take(0) == Seq::<HeaderView>::empty());
        assert(r.deep_view() == header_list(last_values(all.take(0))));
    }
    while i < headers.len()
        invariant
            i <= headers@.len(),
            all == headers.deep_view(),
            r.deep_view() == header_list(last_values(all.take(i as int))),
        decreases headers.len() - i,
    {
        let ghost table = last_values(all.take(i as int));
        let ghost h = headers@[i as int]@;
        proof {
            let next = all.take(i + 1);
            assert(next.drop_last() == all.take(i as int));
            assert(next.last() == h);
        }
        put_header(&mut r, &headers[i], Ghost(table));
        i = i + 1;
    }
    assert(all.take(all.len() as int) == all);
    r
}

/// Puts a header into the list, in place of one with its name.
fn put_header(out: &mut Vec<Header>, h: &Header, Ghost(table): Ghost<HeaderTable>)
    requires
        old(out).deep_view() == header_list(table),
    ensures
        final(out).deep_view() == header_list(
            string_map::inserted(table, h@.name, h@.value),
        ),
{
    let ghost before = out.deep_view();
    let mut i: usize = 0;
    assert(before.len() == table.len());
    while i < out.len()
        invariant
            i <= out@.len(),
            before == out.deep_view(),
            before == header_list(table),
            before.len() == table.len(),
            before == old(out).deep_view(),
            forall|j: int| 0 <= j < i ==> (#[trigger] table[j]).0 != h@.name,
        decreases out.len() - i,
    {
        proof {
            assert(before[i as int] == out@[i as int]@);
            assert(table[i as int].0 == before[i as int].name);
        }
        if text::equal(out[i].name.as_str(), h.name.as_str()) {
            proof {
                string_map::lemma_position_is(table, h@.name, i as int);
            }
            out.set(i, h.clone());
            assert(out.deep_view() == before.update(i as int, h@));
            assert(out.deep_view() == header_list(
                string_map::inserted(table, h@.name, h@.value),
            ));
            return ;
        }
        i = i + 1;
    }
    assert(!string_map::has_key(table, h@.name));
    out.push(h.clone());
    assert(out.deep_view() == before.push(h@));
    assert(out.deep_view() == header_list(string_map::inserted(table, h@.name, h@.value)));
}

// ---------------------------------------------------------------------------------------------
// Laws
// ---------------------------------------------------------------------------------------------

/// No header of a request that goes to a container is a `host` header, and every other header of
/// the client's request is there.
pub proof fn lemma_host_not_forwarded(req: RequestView, addr: Seq<char>, h: HeaderView)
    ensures
        container_forward(req, addr).headers.contains(h) <==> req.headers.contains(h) && h.name
            != "host"@,
        container_upgrade(req, addr).headers.contains(h) <==> req.headers.contains(h) && h.name
            != "host"@,
{
    let p = not_host();
    if without_host(req.headers).contains(h) {
        req.headers.lemma_filter_contains_rev(p, h);
    }
    if req.headers.contains(h) && h.name != "host"@ {
        req.headers.lemma_filter_contains(p, req.headers.index_of(h));
    }
}

/// A request to a static target keeps the host that the client asked for.
pub proof fn lemma_static_keeps_host(req: RequestView, addr: Seq<char>)
    ensures
        first_value(static_forward(req, addr).headers, "host"@) == first_value(
            req.headers,
            "host"@,
        ),
{
    let rest = without_host(req.headers);
    let p = not_host();
    assert forall|i: int| 0 <= i < rest.len() implies (#[trigger] rest[i]).name != "host"@ by {
        assert(rest.contains(rest[i]));
        req.headers.lemma_filter_contains_rev(p, rest[i]);
    }
    lemma_first_value_skips(rest, host_header(req.headers), "host"@);
    let own = host_header(req.headers);
    if own.len() > 0 {
        assert(own[0].name == "host"@);
    }
}

/// Headers with other names do not matter for a header's first value.
proof fn lemma_first_value_skips(
    front: Seq<HeaderView>,
    back: Seq<HeaderView>,
    name: Seq<char>,
)
    requires
        forall|i: int| 0 <= i < front.len() ==> (#[trigger] front[i]).name != name,
    ensures
        first_value(front + back, name) == first_value(back, name),
    decreases front.len(),
{
    if front.len() == 0 {
        assert(front + back == back);
    } else {
        let rest = front.skip(1);
        assert forall|i: int| 0 <= i < rest.len() implies (#[trigger] rest[i]).name != name by {
            assert(rest[i] == front[i + 1]);
        }
        lemma_first_value_skips(rest, back, name);
        assert((front + back).skip(1) == rest + back);
        assert((front + back)[0] == front[0]);
    }
}

} // verus!
