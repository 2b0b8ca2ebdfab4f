//! What holds of the requests that are sent on, told from the requests that came in.

use crate::http;
use crate::http::{HeaderView, RequestView};
use crate::startup;
use crate::string_map;
use crate::text;
use crate::text_laws;
use vstd::prelude::*;

verus! {

// ---------------------------------------------------------------------------------------------
// Reading headers
// ---------------------------------------------------------------------------------------------

/// The first header with this name is the one at `i`.
pub open spec fn first_at(headers: Seq<HeaderView>, name: Seq<char>, i: int) -> bool {
    &&& 0 <= i < headers.len()
    &&& headers[i].name == name
    &&& forall|j: int| 0 <= j < i ==> (#[trigger] headers[j]).name != name
}

/// No header has this name.
pub open spec fn absent(headers: Seq<HeaderView>, name: Seq<char>) -> bool {
    forall|j: int| 0 <= j < headers.len() ==> (#[trigger] headers[j]).name != name
}

/// Every byte is that of a printable ASCII character, of a space or of a tab.
pub open spec fn printable(value: Seq<u8>) -> bool {
    forall|j: int| 0 <= j < value.len() ==> 32 <= (#[trigger] value[j]) <= 126 || value[j] == 9
}

/// The bytes are those of this text, one for each character.
pub open spec fn spells(value: Seq<u8>, t: Seq<char>) -> bool {
    value.len() == t.len() && forall|j: int|
        0 <= j < t.len() ==> (#[trigger] t[j]) as int == value[j] as int
}

/// The first value of a header is that of the first header with its name.
pub proof fn lemma_first_value(headers: Seq<HeaderView>, name: Seq<char>, i: int)
    ensures
        first_at(headers, name, i) ==> http::first_value(headers, name) == Some(headers[i].value),
        absent(headers, name) ==> http::first_value(headers, name) is None,
    decreases headers.len(),
{
    if headers.len() > 0 {
        let rest = headers.skip(1);
        lemma_first_value(rest, name, i - 1);
        if headers[0].name != name {
            if first_at(headers, name, i) {
                assert(rest[i - 1] == headers[i]);
                assert forall|j: int| 0 <= j < i - 1 implies (#[trigger] rest[j]).name != name by {
                    assert(rest[j] == headers[j + 1]);
                }
            }
            if absent(headers, name) {
                assert forall|j: int| 0 <= j < rest.len() implies (#[trigger] rest[j]).name
                    != name by {
                    assert(rest[j] == headers[j + 1]);
                }
            }
        }
    }
}

/// A header is absent, or one is the first with its name.
proof fn lemma_absent_or_first(headers: Seq<HeaderView>, name: Seq<char>) -> (i: int)
    ensures
        absent(headers, name) || first_at(headers, name, i),
    decreases headers.len(),
{
    if headers.len() == 0 || headers[0].name == name {
        0
    } else {
        let rest = headers.skip(1);
        let i = lemma_absent_or_first(rest, name);
        assert forall|j: int| 0 < j < headers.len() implies #[trigger] headers[j] == rest[j - 1] by {}
        i + 1
    }
}

/// The text of a value is there where all its bytes are printable, and has a character for each of
/// them.
pub proof fn lemma_header_text(value: Seq<u8>, t: Seq<char>)
    ensures
        http::header_text(value) == Some(t) <==> printable(value) && spells(value, t),
        http::header_text(value) is None <==> !printable(value),
{
    if printable(value) {
        assert forall|i: int| 0 <= i < value.len() implies http::is_visible(#[trigger] value[i]) by {}
        let own = value.map_values(|b: u8| b as char);
        assert(http::header_text(value) == Some(own));
        if spells(value, t) {
            assert forall|i: int| 0 <= i < t.len() implies own[i] == t[i] by {
                assert(own[i] as int == value[i] as int);
            }
            assert(own =~= t);
        }
    } else {
        let j = choose|j: int|
            0 <= j < value.len() && !(32 <= (#[trigger] value[j]) <= 126 || value[j] == 9);
        assert(!http::is_visible(value[j]));
    }
}

// ---------------------------------------------------------------------------------------------
// What a request asks for
// ---------------------------------------------------------------------------------------------

/// The host of a request is that of its first `host` header, without a port.
pub proof fn lemma_host_of_header(
    req: RequestView,
    i: int,
    full: Seq<char>,
    host: Seq<char>,
    port: Seq<char>,
)
    requires
        first_at(req.headers, "host"@, i),
        printable(req.headers[i].value),
        spells(req.headers[i].value, full),
        full == host || full == host + seq![':'] + port,
        !host.contains(':'),
    ensures
        http::host_of(req) == host,
{
    lemma_first_value(req.headers, "host"@, i);
    lemma_header_text(req.headers[i].value, full);
    lemma_before(full, host, port);
}

/// Without a readable `host` header, the host of a request is that of the authority of its URI,
/// without a port; and empty where there is none.
pub proof fn lemma_host_of_authority(
    req: RequestView,
    i: int,
    full: Seq<char>,
    host: Seq<char>,
    port: Seq<char>,
)
    requires
        absent(req.headers, "host"@) || (first_at(req.headers, "host"@, i) && !printable(
            req.headers[i].value,
        )),
        full == host || full == host + seq![':'] + port,
        !host.contains(':'),
    ensures
        req.authority == Some(full) ==> http::host_of(req) == host,
        req.authority is None ==> http::host_of(req) == Seq::<char>::empty(),
{
    lemma_first_value(req.headers, "host"@, i);
    if first_at(req.headers, "host"@, i) {
        lemma_header_text(req.headers[i].value, full);
    }
    lemma_before(full, host, port);
    lemma_before(Seq::empty(), Seq::empty(), Seq::empty());
}

proof fn lemma_before(full: Seq<char>, host: Seq<char>, port: Seq<char>)
    requires
        full == host || full == host + seq![':'] + port,
        !host.contains(':'),
    ensures
        text::before_first(full, ':') == host,
{
    if full == host + seq![':'] + port {
        text::lemma_cut_first(host, port, ':');
    } else {
        text_laws::lemma_cut_first_parts(full, ':');
    }
}

/// Two texts are equal but for the case of letters where they have the same length and each
/// character is the same, or the same ASCII letter in the other case.
pub proof fn lemma_same_but_for_case(a: Seq<char>, b: Seq<char>)
    ensures
        http::lower_all(a) == http::lower_all(b) <==> a.len() == b.len() && forall|j: int|
            0 <= j < a.len() ==> {
                ||| (#[trigger] a[j]) == b[j]
                ||| 'A' <= a[j] <= 'Z' && b[j] as int == a[j] as int + 32
                ||| 'A' <= b[j] <= 'Z' && a[j] as int == b[j] as int + 32
            },
{
    let (x, y) = (http::lower_all(a), http::lower_all(b));
    if x == y {
        assert(a.len() == x.len() && b.len() == y.len());
        assert forall|j: int| 0 <= j < a.len() implies {
            ||| (#[trigger] a[j]) == b[j]
            ||| 'A' <= a[j] <= 'Z' && b[j] as int == a[j] as int + 32
            ||| 'A' <= b[j] <= 'Z' && a[j] as int == b[j] as int + 32
        } by {
            assert(x[j] == http::lower(a[j]));
            assert(y[j] == http::lower(b[j]));
        }
    }
    if a.len() == b.len() && forall|j: int|
        0 <= j < a.len() ==> {
            ||| (#[trigger] a[j]) == b[j]
            ||| 'A' <= a[j] <= 'Z' && b[j] as int == a[j] as int + 32
            ||| 'A' <= b[j] <= 'Z' && a[j] as int == b[j] as int + 32
        } {
        assert forall|j: int| 0 <= j < a.len() implies x[j] == y[j] by {
            assert(x[j] == http::lower(a[j]));
            assert(y[j] == http::lower(b[j]));
            assert(a[j] == a[j]);
        }
        assert(x =~= y);
    }
}

/// A request asks for a WebSocket exactly where its first `upgrade` header says `websocket`, in
/// small or capital letters.
pub proof fn lemma_websocket(req: RequestView)
    ensures
        http::asks_for_websocket(req) <==> exists|i: int| #[trigger]
            first_at(req.headers, "upgrade"@, i) && ({
                let v = req.headers[i].value;
                v.len() == 9 && forall|j: int|
                    0 <= j < 9 ==> (#[trigger] v[j]) as int == "websocket"@[j] as int || v[j]
                        as int + 32 == "websocket"@[j] as int
            }),
{
    reveal_strlit("websocket");
    let word = "websocket"@;
    let i = lemma_absent_or_first(req.headers, "upgrade"@);
    lemma_first_value(req.headers, "upgrade"@, i);
    if first_at(req.headers, "upgrade"@, i) {
        let v = req.headers[i].value;
        let t = v.map_values(|b: u8| b as char);
        assert forall|j: int| 0 <= j < t.len() implies (#[trigger] t[j]) as int == v[j] as int by {}
        lemma_header_text(v, t);
        lemma_same_but_for_case(t, word);
        assert forall|k: int| #[trigger] first_at(req.headers, "upgrade"@, k) implies k == i by {
            if k < i {
                assert(req.headers[k].name == "upgrade"@);
            }
            if i < k {
                assert(req.headers[i].name == "upgrade"@);
            }
        }
        let said = v.len() == 9 && forall|j: int|
            0 <= j < 9 ==> (#[trigger] v[j]) as int == word[j] as int || v[j] as int + 32
                == word[j] as int;
        assert forall|j: int| 0 <= j < 9 implies 97 <= #[trigger] word[j] as int <= 122 by {}
        if said {
            assert(printable(v)) by {
                assert forall|j: int| 0 <= j < v.len() implies 32 <= (#[trigger] v[j]) <= 126
                    || v[j] == 9 by {
                    assert(97 <= word[j] as int <= 122);
                }
            }
            assert forall|j: int| 0 <= j < t.len() implies {
                ||| (#[trigger] t[j]) == word[j]
                ||| 'A' <= t[j] <= 'Z' && word[j] as int == t[j] as int + 32
                ||| 'A' <= word[j] <= 'Z' && t[j] as int == word[j] as int + 32
            } by {
                assert(v[j] as int == word[j] as int || v[j] as int + 32 == word[j] as int);
                assert(97 <= word[j] as int <= 122);
            }
            assert(http::asks_for_websocket(req));
        }
        if http::asks_for_websocket(req) {
            assert(http::lower_all(t) == http::lower_all(word));
            assert forall|j: int| 0 <= j < 9 implies (#[trigger] v[j]) as int == word[j] as int
                || v[j] as int + 32 == word[j] as int by {
                assert(t[j] as int == v[j] as int);
                assert(97 <= word[j] as int <= 122);
            }
            assert(said);
        }
    } else {
        assert(absent(req.headers, "upgrade"@));
        assert forall|k: int| !#[trigger] first_at(req.headers, "upgrade"@, k) by {}
    }
}

/// The first content type of the headers is readable and begins with `application/grpc`.
pub open spec fn says_grpc(headers: Seq<HeaderView>) -> bool {
    exists|i: int| #[trigger]
        first_at(headers, "content-type"@, i) && printable(headers[i].value)
            && headers[i].value.len() >= 16 && spells(
            headers[i].value.take(16),
            "application/grpc"@,
        )
}

/// Headers are those of a gRPC call exactly where their first content type says so.
pub proof fn lemma_grpc(headers: Seq<HeaderView>)
    ensures
        http::has_grpc_type(headers) <==> says_grpc(headers),
{
    reveal_strlit("application/grpc");
    let word = "application/grpc"@;
    let i = lemma_absent_or_first(headers, "content-type"@);
    lemma_first_value(headers, "content-type"@, i);
    if first_at(headers, "content-type"@, i) {
        let v = headers[i].value;
        let t = v.map_values(|b: u8| b as char);
        assert forall|j: int| 0 <= j < t.len() implies (#[trigger] t[j]) as int == v[j] as int by {}
        lemma_header_text(v, t);
        assert forall|k: int| #[trigger] first_at(headers, "content-type"@, k) implies k == i by {
            if k < i {
                assert(headers[k].name == "content-type"@);
            }
            if i < k {
                assert(headers[i].name == "content-type"@);
            }
        }
        if v.len() >= 16 {
            let head = t.subrange(0, 16);
            assert(word.is_prefix_of(t) <==> word == head);
            if spells(v.take(16), word) {
                assert forall|j: int| 0 <= j < 16 implies word[j] == head[j] by {
                    assert(word[j] as int == v.take(16)[j] as int);
                    assert(head[j] == t[j]);
                }
                assert(word =~= head);
            }
            if word == head {
                assert forall|j: int| 0 <= j < 16 implies (#[trigger] word[j]) as int == v.take(
                    16,
                )[j] as int by {
                    assert(head[j] == t[j]);
                }
            }
        }
    } else {
        assert forall|k: int| !#[trigger] first_at(headers, "content-type"@, k) by {}
    }
}

// ---------------------------------------------------------------------------------------------
// Requests that are sent on
// ---------------------------------------------------------------------------------------------

/// The URL of a path at an address: one slash stands between them, however many the path begins
/// with.
pub proof fn lemma_http_url(addr: Seq<char>, slashes: nat, rest: Seq<char>)
    requires
        rest.len() == 0 || rest[0] != '/',
    ensures
        startup::http_url(addr, text_laws::repeated('/', slashes) + rest) == "http://"@ + addr
            + "/"@ + rest,
{
    text_laws::lemma_trim_leading_of(rest, '/', slashes);
}

/// What is sent on has the method of the client's request, whatever that is.
pub proof fn lemma_method_kept(req: RequestView, addr: Seq<char>)
    ensures
        http::container_forward(req, addr).method == req.method,
        http::static_forward(req, addr).method == req.method,
{
}

/// Two requests that differ in their methods only are sent on with their own methods, and alike in
/// everything else.
pub proof fn lemma_only_method_differs(req: RequestView, other: Seq<char>, addr: Seq<char>)
    ensures
        ({
            let second = RequestView { method: other, ..req };
            let (a, b) = (http::container_forward(req, addr), http::container_forward(second, addr));
            &&& a.method == req.method
            &&& b.method == other
            &&& a.url == b.url
            &&& a.headers == b.headers
            &&& a.http2 == b.http2
        }),
        ({
            let second = RequestView { method: other, ..req };
            let (a, b) = (http::static_forward(req, addr), http::static_forward(second, addr));
            &&& a.method == req.method
            &&& b.method == other
            &&& a.url == b.url
            &&& a.headers == b.headers
            &&& a.http2 == b.http2
        }),
{
}

/// What is sent on asks the address for the path and the query of the client's request, with one
/// slash before them; and for `/` alone where the request has neither.
pub proof fn lemma_url_kept(req: RequestView, addr: Seq<char>, slashes: nat, rest: Seq<char>)
    requires
        rest.len() == 0 || rest[0] != '/',
        req.path_and_query is None ==> rest.len() == 0,
        req.path_and_query matches Some(asked) ==> asked == text_laws::repeated('/', slashes)
            + rest,
    ensures
        http::container_forward(req, addr).url == "http://"@ + addr + "/"@ + rest,
        http::static_forward(req, addr).url == "http://"@ + addr + "/"@ + rest,
{
    lemma_http_url(addr, slashes, rest);
    if req.path_and_query is None {
        reveal_strlit("/");
        assert(text_laws::repeated('/', 1) + Seq::<char>::empty() =~= "/"@);
        lemma_http_url(addr, 1, Seq::empty());
        assert(rest =~= Seq::empty());
    }
}

/// A WebSocket request is sent on as a `GET` of the path of the client's request, without its
/// query, over HTTP/1.
pub proof fn lemma_upgrade_asks(req: RequestView, addr: Seq<char>, slashes: nat, rest: Seq<char>)
    requires
        rest.len() == 0 || rest[0] != '/',
        req.path == text_laws::repeated('/', slashes) + rest,
    ensures
        http::container_upgrade(req, addr).method == "GET"@,
        http::static_upgrade(req, addr).method == "GET"@,
        http::container_upgrade(req, addr).url == "http://"@ + addr + "/"@ + rest,
        http::static_upgrade(req, addr).url == "http://"@ + addr + "/"@ + rest,
        !http::container_upgrade(req, addr).http2,
        !http::static_upgrade(req, addr).http2,
{
    lemma_http_url(addr, slashes, rest);
}

/// The headers that a container is sent are those of the client's request one by one: what is sent
/// of two lists of headers is what is sent of the first and then what is sent of the second; and of
/// a single header that header is sent, unless it is a `host` header.
pub proof fn lemma_headers_one_by_one(
    req: RequestView,
    addr: Seq<char>,
    a: Seq<HeaderView>,
    b: Seq<HeaderView>,
    h: HeaderView,
)
    ensures
        ({
            let sent = |headers: Seq<HeaderView>| http::container_forward(
                RequestView { headers, ..req },
                addr,
            ).headers;
            &&& sent(a + b) == sent(a) + sent(b)
            &&& sent(seq![h]) == if h.name == "host"@ {
                Seq::empty()
            } else {
                seq![h]
            }
        }),
        ({
            let sent = |headers: Seq<HeaderView>| http::container_upgrade(
                RequestView { headers, ..req },
                addr,
            ).headers;
            &&& sent(a + b) == sent(a) + sent(b)
            &&& sent(seq![h]) == if h.name == "host"@ {
                Seq::empty()
            } else {
                seq![h]
            }
        }),
{
    lemma_without_host_joined(a, b);
    lemma_without_host_single(h);
}

proof fn lemma_without_host_joined(a: Seq<HeaderView>, b: Seq<HeaderView>)
    ensures
        http::without_host(a + b) == http::without_host(a) + http::without_host(b),
{
    Seq::filter_distributes_over_add(a, b, http::not_host());
}

proof fn lemma_without_host_single(h: HeaderView)
    ensures
        http::without_host(seq![h]) == if h.name == "host"@ {
            Seq::empty()
        } else {
            seq![h]
        },
{
    reveal(Seq::filter);
    assert(seq![h].drop_last() =~= Seq::<HeaderView>::empty());
    assert(seq![h].drop_last().filter(http::not_host()) =~= Seq::<HeaderView>::empty());
    assert(seq![h].last() == h);
    if h.name != "host"@ {
        assert(http::without_host(seq![h]) =~= seq![h]);
    }
}

/// A static target is sent the headers that a container would be sent, and behind them the first
/// `host` header of the client's request, where it has one.
pub proof fn lemma_static_headers(req: RequestView, addr: Seq<char>, i: int)
    ensures
        absent(req.headers, "host"@) ==> http::static_forward(req, addr).headers
            == http::container_forward(req, addr).headers,
        first_at(req.headers, "host"@, i) ==> http::static_forward(req, addr).headers
            == http::container_forward(req, addr).headers.push(req.headers[i]),
{
    lemma_first_value(req.headers, "host"@, i);
    let kept = http::without_host(req.headers);
    if absent(req.headers, "host"@) {
        assert(kept + http::host_header(req.headers) =~= kept);
    }
    if first_at(req.headers, "host"@, i) {
        let own = HeaderView { name: "host"@, value: req.headers[i].value };
        assert(own == req.headers[i]);
        assert(kept + http::host_header(req.headers) =~= kept.push(req.headers[i]));
    }
}

/// HTTP/2 is spoken exactly where the request is a gRPC call: where the first content type among the
/// headers of the client's request begins with `application/grpc`.
pub proof fn lemma_grpc_over_http2(req: RequestView, addr: Seq<char>)
    ensures
        http::container_forward(req, addr).http2 <==> says_grpc(req.headers),
        http::static_forward(req, addr).http2 <==> says_grpc(req.headers),
{
    let kept = http::without_host(req.headers);
    reveal_strlit("host");
    reveal_strlit("content-type");
    let name = "content-type"@;
    assert("host"@.len() != name.len());
    lemma_grpc(req.headers);
    lemma_value_kept(req.headers, name);
    let own = http::host_header(req.headers);
    lemma_value_joined(kept, own, name);
    lemma_absent_or_first(own, name);
    if own.len() > 0 {
        assert(own[0].name == "host"@);
    }
    assert(absent(own, name));
    lemma_first_value(own, name, 0);
}

/// Dropping the `host` headers leaves the first value of every other header.
proof fn lemma_value_kept(headers: Seq<HeaderView>, name: Seq<char>)
    requires
        name != "host"@,
    ensures
        http::first_value(http::without_host(headers), name) == http::first_value(headers, name),
    decreases headers.len(),
{
    if headers.len() == 0 {
        reveal(Seq::filter);
        assert(http::without_host(headers) =~= Seq::<HeaderView>::empty());
    } else {
        let (h, rest) = (headers[0], headers.skip(1));
        assert(headers =~= seq![h] + rest);
        lemma_without_host_joined(seq![h], rest);
        lemma_without_host_single(h);
        lemma_value_kept(rest, name);
        lemma_value_joined(http::without_host(seq![h]), http::without_host(rest), name);
        lemma_value_joined(seq![h], rest, name);
        assert(seq![h].skip(1) =~= Seq::<HeaderView>::empty());
        assert(http::first_value(Seq::<HeaderView>::empty(), name) is None);
        assert(seq![h][0] == h);
    }
}

/// The first value in two lists is that of the first, or else that of the second.
proof fn lemma_value_joined(a: Seq<HeaderView>, b: Seq<HeaderView>, name: Seq<char>)
    ensures
        http::first_value(a + b, name) == (match http::first_value(a, name) {
            Some(v) => Some(v),
            None => http::first_value(b, name),
        }),
    decreases a.len(),
{
    if a.len() == 0 {
        assert(a + b =~= b);
    } else {
        assert((a + b)[0] == a[0]);
        assert((a + b).skip(1) =~= a.skip(1) + b);
        lemma_value_joined(a.skip(1), b, name);
    }
}

/// The value of the first header with a name, or else the bytes of a text.
pub open spec fn value_or(headers: Seq<HeaderView>, name: Seq<char>, text: Seq<char>, v: Seq<u8>) -> bool {
    &&& forall|i: int| #[trigger] first_at(headers, name, i) ==> v == headers[i].value
    &&& absent(headers, name) ==> v == vstd::utf8::encode_utf8(text)
}

/// The WebSocket request to a static target has these headers in this order: `connection: upgrade`,
/// `upgrade: websocket`, the client's key or an empty one, the client's version or `13`, and the
/// client's first `host` header, where it has one.
pub proof fn lemma_static_upgrade_headers(req: RequestView, addr: Seq<char>)
    ensures
        ({
            let sent = http::static_upgrade(req, addr).headers;
            &&& sent.len() >= 4
            &&& sent[0].name == "connection"@ && sent[0].value == vstd::utf8::encode_utf8(
                "upgrade"@,
            )
            &&& sent[1].name == "upgrade"@ && sent[1].value == vstd::utf8::encode_utf8(
                "websocket"@,
            )
            &&& sent[2].name == "sec-websocket-key"@ && value_or(
                req.headers,
                "sec-websocket-key"@,
                ""@,
                sent[2].value,
            )
            &&& sent[3].name == "sec-websocket-version"@ && value_or(
                req.headers,
                "sec-websocket-version"@,
                "13"@,
                sent[3].value,
            )
            &&& absent(req.headers, "host"@) ==> sent.len() == 4
            &&& forall|i: int| #[trigger]
                first_at(req.headers, "host"@, i) ==> sent.len() == 5 && sent[4] == req.headers[i]
        }),
{
    let sent = http::static_upgrade(req, addr).headers;
    lemma_value_or(req.headers, "sec-websocket-key"@, ""@);
    lemma_value_or(req.headers, "sec-websocket-version"@, "13"@);
    lemma_first_value(req.headers, "host"@, 0);
    assert forall|i: int| #[trigger] first_at(req.headers, "host"@, i) implies sent.len() == 5
        && sent[4] == req.headers[i] by {
        lemma_first_value(req.headers, "host"@, i);
        assert(sent[4] == http::host_header(req.headers)[0]);
    }
}

proof fn lemma_value_or(headers: Seq<HeaderView>, name: Seq<char>, text: Seq<char>)
    ensures
        value_or(
            headers,
            name,
            text,
            match http::first_value(headers, name) {
                Some(v) => v,
                None => vstd::utf8::encode_utf8(text),
            },
        ),
{
    lemma_first_value(headers, name, 0);
    assert forall|i: int| #[trigger] first_at(headers, name, i) implies http::first_value(
        headers,
        name,
    ) == Some(headers[i].value) by {
        lemma_first_value(headers, name, i);
    }
}

// ---------------------------------------------------------------------------------------------
// Headers of an upgrade response
// ---------------------------------------------------------------------------------------------

/// Of the headers that are handed on when a connection is upgraded, each name stands there once, and
/// each is the last header with its name; none is left out.
pub proof fn lemma_upgrade_headers(headers: Seq<HeaderView>, h: HeaderView)
    ensures
        ({
            let r = http::header_list(http::last_values(headers));
            &&& forall|i: int, j: int|
                0 <= i < j < r.len() ==> (#[trigger] r[i]).name != (#[trigger] r[j]).name
            &&& r.contains(h) <==> exists|i: int|
                0 <= i < headers.len() && (#[trigger] headers[i]) == h && forall|j: int|
                    i < j < headers.len() ==> (#[trigger] headers[j]).name != h.name
        }),
    decreases headers.len(),
{
    let table = http::last_values(headers);
    let r = http::header_list(table);
    if headers.len() > 0 {
        let init = headers.drop_last();
        let last = headers.last();
        lemma_upgrade_headers(init, h);
        lemma_upgrade_headers_pushed(init, last);
        assert(headers =~= init.push(last));
        let before = http::header_list(http::last_values(init));
        if r.contains(h) {
            if h.name == last.name {
                let k = r.index_of(h);
                assert(r[k] == last);
                assert(headers[headers.len() - 1] == h);
            } else {
                let k = r.index_of(h);
                assert(before[k] == h);
                assert(before.contains(h));
                let i = choose|i: int|
                    0 <= i < init.len() && (#[trigger] init[i]) == h && forall|j: int|
                        i < j < init.len() ==> (#[trigger] init[j]).name != h.name;
                assert(headers[i] == h);
                assert forall|j: int| i < j < headers.len() implies (#[trigger] headers[j]).name
                    != h.name by {
                    if j < init.len() {
                        assert(init[j] == headers[j]);
                    }
                }
            }
        }
        if exists|i: int|
            0 <= i < headers.len() && (#[trigger] headers[i]) == h && forall|j: int|
                i < j < headers.len() ==> (#[trigger] headers[j]).name != h.name {
            let i = choose|i: int|
                0 <= i < headers.len() && (#[trigger] headers[i]) == h && forall|j: int|
                    i < j < headers.len() ==> (#[trigger] headers[j]).name != h.name;
            if i == headers.len() - 1 {
                let k = choose|k: int| 0 <= k < r.len() && #[trigger] r[k] == last;
                assert(r[k] == h);
            } else {
                assert(init[i] == h);
                assert(headers[headers.len() - 1].name != h.name);
                assert forall|j: int| i < j < init.len() implies (#[trigger] init[j]).name
                    != h.name by {
                    assert(init[j] == headers[j]);
                }
                assert(before.contains(h));
                let k = before.index_of(h);
                assert(r[k] == h);
            }
        }
    }
}

/// One more header takes the place of the one with its name, or else stands at the end; all others
/// stay where they are.
pub proof fn lemma_upgrade_headers_pushed(headers: Seq<HeaderView>, h: HeaderView)
    ensures
        ({
            let before = http::header_list(http::last_values(headers));
            let after = http::header_list(http::last_values(headers.push(h)));
            &&& before.len() <= after.len()
            &&& absent(before, h.name) ==> after == before.push(h)
            &&& !absent(before, h.name) ==> after.len() == before.len()
            &&& forall|k: int|
                0 <= k < before.len() ==> #[trigger] after[k] == if before[k].name == h.name {
                    h
                } else {
                    before[k]
                }
            &&& exists|k: int| 0 <= k < after.len() && #[trigger] after[k] == h
            &&& forall|i: int, j: int|
                0 <= i < j < after.len() ==> (#[trigger] after[i]).name != (#[trigger] after[j]).name
        }),
    decreases headers.len(),
{
    let table = http::last_values(headers);
    let before = http::header_list(table);
    let next = string_map::inserted(table, h.name, h.value);
    let after = http::header_list(next);
    assert(headers.push(h).drop_last() =~= headers);
    assert(http::last_values(headers.push(h)) == next);
    lemma_distinct(headers);
    string_map::lemma_inserted(table, h.name, h.value, h.name);
    string_map::lemma_position(table, h.name);
    assert forall|k: int| 0 <= k < before.len() implies (#[trigger] before[k]).name == table[k].0
        && before[k].value == table[k].1 by {}
    assert forall|k: int| 0 <= k < after.len() implies (#[trigger] after[k]).name == next[k].0
        && after[k].value == next[k].1 by {}
    if string_map::has_key(table, h.name) {
        let p = string_map::position(table, h.name);
        assert(before[p].name == h.name);
        assert(!absent(before, h.name));
        assert(after[p] == h);
        assert forall|k: int| 0 <= k < before.len() implies #[trigger] after[k] == if before[k].name
            == h.name {
            h
        } else {
            before[k]
        } by {
            if k < p {
                assert(table[k].0 != table[p].0);
            }
            if p < k {
                assert(table[p].0 != table[k].0);
            }
        }
    } else {
        assert(absent(before, h.name));
        assert(after =~= before.push(h));
        assert(after[before.len() as int] == h);
    }
}

proof fn lemma_distinct(headers: Seq<HeaderView>)
    ensures
        string_map::distinct_keys(http::last_values(headers)),
    decreases headers.len(),
{
    if headers.len() > 0 {
        lemma_distinct(headers.drop_last());
        let h = headers.last();
        string_map::lemma_inserted(
            http::last_values(headers.drop_last()),
            h.name,
            h.value,
            h.name,
        );
    }
}

} // verus!
