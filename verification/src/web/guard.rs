//! Which requests are let through, and what every answer carries.

use vstd::prelude::*;
use vstd::slice::slice_subrange;
use vstd::utf8::{encode_utf8, is_ascii_chars_encode_utf8};
use crate::bytes::same_bytes;
use crate::text::{
    decimal, decimal_digits, joined, law_digits_give_number, number_of, parse_number,
};
use crate::web::error::{refusal, ApiError, Refusal, FORBIDDEN, UNAUTHORIZED};
use crate::web::settings::str_view;

verus! {

/// What of a request decides whether it is let through: whether it is a POST
/// request, and the values of its headers.
#[derive(Debug)]
pub struct RequestHead {
    /// Whether the method is POST.
    pub is_post: bool,
    /// `Sec-Fetch-Site`.
    pub site: Option<Vec<u8>>,
    /// `Origin`.
    pub origin: Option<Vec<u8>>,
    /// `Host`.
    pub host: Option<Vec<u8>>,
    /// `X-Encrypt-Token`.
    pub token: Option<Vec<u8>>,
}

/// Whether a header value consists of visible ASCII characters, spaces and tabs.
pub open spec fn is_header_text(value: Seq<u8>) -> bool {
    forall|i: int| 0 <= i < value.len() ==> 32 <= #[trigger] value[i] < 127 || value[i] == 9
}

/// A header value that is text.
pub open spec fn header_text_of(value: Option<Vec<u8>>) -> Option<Seq<u8>> {
    match value {
        Some(v) => if is_header_text(v@) {
            Some(v@)
        } else {
            None
        },
        None => None,
    }
}

/// Whether a header value consists of visible ASCII characters, spaces and tabs.
fn is_text(value: &[u8]) -> (b: bool)
    ensures
        b == is_header_text(value@),
{
    let mut i: usize = 0;
    while i < value.len()
        invariant
            i <= value@.len(),
            forall|j: int| 0 <= j < i ==> 32 <= #[trigger] value@[j] < 127 || value@[j] == 9,
        decreases value@.len() - i,
    {
        if !(32 <= value[i] && value[i] < 127 || value[i] == 9) {
            return false;
        }
        i = i + 1;
    }
    true
}

/// A header value that is text.
pub fn header_text(value: &Option<Vec<u8>>) -> (text: Option<&[u8]>)
    ensures
        match text {
            Some(t) => header_text_of(*value) == Some(t@),
            None => header_text_of(*value) is None,
        },
{
    match value {
        None => None,
        Some(v) => if is_text(v.as_slice()) {
            Some(v.as_slice())
        } else {
            None
        },
    }
}

/// Whether the end of a scheme, a colon and two slashes, stands at `i`.
pub open spec fn scheme_ends_at(origin: Seq<u8>, i: int) -> bool {
    &&& 0 <= i
    &&& i + 3 <= origin.len()
    &&& origin[i] == 58
    &&& origin[i + 1] == 47
    &&& origin[i + 2] == 47
}

/// The first place from `from` on where the end of a scheme stands, or the
/// length of `origin`.
pub open spec fn scheme_end_from(origin: Seq<u8>, from: int) -> int
    decreases origin.len() - from,
{
    if from >= origin.len() {
        origin.len() as int
    } else if scheme_ends_at(origin, from) {
        from
    } else {
        scheme_end_from(origin, from + 1)
    }
}

/// `bytes` without the slashes at its end.
pub open spec fn without_slashes(bytes: Seq<u8>) -> Seq<u8>
    decreases bytes.len(),
{
    if bytes.len() > 0 && bytes.last() == 47 {
        without_slashes(bytes.drop_last())
    } else {
        bytes
    }
}

/// The host of an origin: what stands between the end of its scheme and the
/// next such mark, without slashes at its end. An origin without a scheme has
/// none.
pub open spec fn origin_host_of(origin: Seq<u8>) -> Seq<u8> {
    let at = scheme_end_from(origin, 0);
    if at >= origin.len() {
        Seq::empty()
    } else {
        without_slashes(origin.subrange(at + 3, scheme_end_from(origin, at + 3)))
    }
}

/// The first place from `from` on where the end of a scheme stands.
fn find_scheme_end(origin: &[u8], from: usize) -> (at: usize)
    requires
        from <= origin@.len(),
    ensures
        at == scheme_end_from(origin@, from as int),
        from <= at <= origin@.len(),
        at < origin@.len() ==> scheme_ends_at(origin@, at as int),
{
    let mut at: usize = from;
    while at < origin.len()
        invariant
            from <= at <= origin@.len(),
            scheme_end_from(origin@, at as int) == scheme_end_from(origin@, from as int),
        decreases origin@.len() - at,
    {
        if origin.len() - at >= 3 && origin[at] == 58 && origin[at + 1] == 47 && origin[at + 2]
            == 47 {
            return at;
        }
        at = at + 1;
    }
    at
}

/// The host of an origin.
pub fn origin_host(origin: &[u8]) -> (host: &[u8])
    ensures
        host@ == origin_host_of(origin@),
{
    let at: usize = find_scheme_end(origin, 0);
    if at >= origin.len() {
        let none = slice_subrange(origin, 0, 0);
        assert(none@ =~= Seq::<u8>::empty());
        return none;
    }
    let end: usize = find_scheme_end(origin, at + 3);
    let rest = slice_subrange(origin, at + 3, end);
    let mut n: usize = rest.len();
    assert(rest@.subrange(0, n as int) =~= rest@);
    while n > 0 && rest[n - 1] == 47
        invariant
            n <= rest@.len(),
            without_slashes(rest@.subrange(0, n as int)) == without_slashes(rest@),
        decreases n,
    {
        let ghost part = rest@.subrange(0, n as int);
        assert(part.drop_last() =~= rest@.subrange(0, n - 1));
        n = n - 1;
    }
    slice_subrange(rest, 0, n)
}

/// Whether a request comes from the service's own pages, as far as its headers
/// tell.
pub open spec fn is_same_origin(head: RequestHead) -> bool {
    &&& header_text_of(head.site) matches Some(site) ==> site == encode_utf8("same-origin"@)
        || site == encode_utf8("none"@)
    &&& header_text_of(head.origin) matches Some(origin) ==> {
        let host = match header_text_of(head.host) {
            Some(h) => h,
            None => Seq::empty(),
        };
        origin_host_of(origin).len() > 0 && origin_host_of(origin) == host
    }
}

/// The refusal of a request from another site.
pub open spec fn cross_origin() -> Refusal {
    refusal(FORBIDDEN, "Cross-origin requests are not allowed"@)
}

/// Refuses a request from another site.
pub fn check_same_origin(head: &RequestHead) -> (r: Result<(), ApiError>)
    ensures
        match r {
            Ok(()) => is_same_origin(*head),
            Err(e) => !is_same_origin(*head) && e@ == cross_origin(),
        },
{
    if let Some(site) = header_text(&head.site) {
        if !same_bytes(site, "same-origin".as_bytes()) && !same_bytes(site, "none".as_bytes()) {
            return Err(ApiError::new(FORBIDDEN, "Cross-origin requests are not allowed"));
        }
    }
    if let Some(origin) = header_text(&head.origin) {
        let from = origin_host(origin);
        let same = match header_text(&head.host) {
            Some(host) => same_bytes(from, host),
            None => from.len() == 0,
        };
        if from.len() == 0 || !same {
            return Err(ApiError::new(FORBIDDEN, "Cross-origin requests are not allowed"));
        }
    }
    Ok(())
}

/// Whether `a` and `b` are equal. How long it takes depends on their lengths
/// alone.
pub fn constant_time_eq(a: &[u8], b: &[u8]) -> (same: bool)
    ensures
        same == (a@ == b@),
{
    if a.len() != b.len() {
        return false;
    }
    let mut acc: u8 = 0;
    let mut i: usize = 0;
    assert(a@.subrange(0, 0) =~= b@.subrange(0, 0));
    while i < a.len()
        invariant
            i <= a@.len(),
            a@.len() == b@.len(),
            acc == 0 <==> a@.subrange(0, i as int) == b@.subrange(0, i as int),
        decreases a@.len() - i,
    {
        let x: u8 = a[i];
        let y: u8 = b[i];
        let next: u8 = acc | (x ^ y);
        proof {
            assert(next == 0u8 <==> (acc == 0u8 && x == y)) by (bit_vector)
                requires
                    next == acc | (x ^ y),
            ;
            let ax = a@.subrange(0, i + 1);
            let by = b@.subrange(0, i + 1);
            assert(ax =~= a@.subrange(0, i as int).push(x));
            assert(by =~= b@.subrange(0, i as int).push(y));
            if ax == by {
                assert(ax.last() == by.last());
                assert(ax.drop_last() =~= a@.subrange(0, i as int));
                assert(by.drop_last() =~= b@.subrange(0, i as int));
            }
        }
        acc = next;
        i = i + 1;
    }
    assert(a@.subrange(0, i as int) =~= a@);
    assert(b@.subrange(0, i as int) =~= b@);
    acc == 0
}

/// Whether a request carries the token that is expected.
pub open spec fn has_token(head: RequestHead, expected: Seq<u8>) -> bool {
    expected == match header_text_of(head.token) {
        Some(t) => t,
        None => Seq::empty(),
    }
}

/// Whether a request is let through, where `expected` is the token that a POST
/// request needs.
pub open spec fn lets_through(head: RequestHead, expected: Option<Seq<char>>) -> bool {
    head.is_post ==> is_same_origin(head) && (expected matches Some(token) ==> has_token(
        head,
        encode_utf8(token),
    ))
}

/// Lets a request through, or says why it is refused. Only POST requests are
/// refused: those from another site, and those without the token, where one is
/// expected.
pub fn handle(head: &RequestHead, expected: Option<&str>) -> (r: Result<(), ApiError>)
    ensures
        r is Ok <==> lets_through(*head, str_view(expected)),
        match r {
            Ok(()) => head.is_post ==> is_same_origin(*head) && (expected matches Some(token)
                ==> has_token(*head, encode_utf8(token@))),
            Err(e) => head.is_post && if !is_same_origin(*head) {
                e@ == cross_origin()
            } else {
                &&& expected matches Some(token)
                &&& !has_token(*head, encode_utf8(token@))
                &&& e@ == refusal(UNAUTHORIZED, "Invalid or missing token"@)
            },
        },
{
    if !head.is_post {
        return Ok(());
    }
    match check_same_origin(head) {
        Ok(()) => {},
        Err(e) => return Err(e),
    }
    if let Some(token) = expected {
        let right = match header_text(&head.token) {
            Some(provided) => constant_time_eq(provided, token.as_bytes()),
            None => {
                let none: Vec<u8> = Vec::new();
                constant_time_eq(none.as_slice(), token.as_bytes())
            },
        };
        if !right {
            return Err(ApiError::new(UNAUTHORIZED, "Invalid or missing token"));
        }
    }
    Ok(())
}

/// The headers that every answer to a request that was let through carries.
pub open spec fn security_header_list() -> Seq<(Seq<char>, Seq<char>)> {
    seq![
        (
            "content-security-policy"@,
            "default-src 'none'; script-src 'self'; style-src 'self'; connect-src 'self'; img-src 'self' data:; form-action 'none'; frame-ancestors 'none'; base-uri 'none'"@,
        ),
        ("x-content-type-options"@, "nosniff"@),
        ("x-frame-options"@, "DENY"@),
        ("referrer-policy"@, "no-referrer"@),
        ("cache-control"@, "no-store"@),
        ("cross-origin-resource-policy"@, "same-origin"@),
        ("cross-origin-opener-policy"@, "same-origin"@),
        (
            "permissions-policy"@,
            "geolocation=(), camera=(), microphone=(), interest-cohort=()"@,
        ),
    ]
}

/// A list of headers as contracts speak of it.
pub open spec fn headers_view(headers: Seq<(String, String)>) -> Seq<(Seq<char>, Seq<char>)> {
    Seq::new(headers.len(), |i: int| (headers[i].0@, headers[i].1@))
}

/// A header with this name and this value.
pub fn header(name: &str, value: &str) -> (h: (String, String))
    ensures
        h.0@ == name@,
        h.1@ == value@,
{
    (name.to_owned(), value.to_owned())
}

/// The headers that every answer to a request that was let through carries.
pub fn security_headers() -> (headers: Vec<(String, String)>)
    ensures
        headers_view(headers@) == security_header_list(),
{
    let mut headers: Vec<(String, String)> = Vec::new();
    headers.push(
        header(
            "content-security-policy",
            "default-src 'none'; script-src 'self'; style-src 'self'; connect-src 'self'; img-src 'self' data:; form-action 'none'; frame-ancestors 'none'; base-uri 'none'",
        ),
    );
    headers.push(header("x-content-type-options", "nosniff"));
    headers.push(header("x-frame-options", "DENY"));
    headers.push(header("referrer-policy", "no-referrer"));
    headers.push(header("cache-control", "no-store"));
    headers.push(header("cross-origin-resource-policy", "same-origin"));
    headers.push(header("cross-origin-opener-policy", "same-origin"));
    headers.push(
        header(
            "permissions-policy",
            "geolocation=(), camera=(), microphone=(), interest-cohort=()",
        ),
    );
    assert(headers_view(headers@) =~= security_header_list());
    headers
}

/// The characters that ASCII bytes stand for.
pub open spec fn ascii_chars(bytes: Seq<u8>) -> Seq<char> {
    Seq::new(bytes.len(), |i: int| bytes[i] as char)
}

/// The length that a request claims to have: the value of its `Content-Length`,
/// or zero.
pub open spec fn claimed_length(value: Option<Vec<u8>>) -> u64 {
    match header_text_of(value) {
        Some(text) => match number_of(ascii_chars(text), u64::MAX) {
            Some(n) => n,
            None => 0,
        },
        None => 0,
    }
}

/// The text that ASCII bytes stand for.
fn ascii_text(bytes: &[u8]) -> (text: String)
    ensures
        text@ == ascii_chars(bytes@),
{
    let mut text = String::new();
    let mut i: usize = 0;
    while i < bytes.len()
        invariant
            i <= bytes@.len(),
            text@ == ascii_chars(bytes@).subrange(0, i as int),
        decreases bytes@.len() - i,
    {
        proof {
            let all = ascii_chars(bytes@);
            assert(all.subrange(0, i + 1) =~= all.subrange(0, i as int).push(all[i as int]));
        }
        text.push(bytes[i] as char);
        i = i + 1;
    }
    assert(ascii_chars(bytes@).subrange(0, i as int) =~= ascii_chars(bytes@));
    text
}

/// The length that a request claims to have.
pub fn request_length(value: &Option<Vec<u8>>) -> (n: u64)
    ensures
        n == claimed_length(*value),
{
    match header_text(value) {
        Some(bytes) => match parse_number(ascii_text(bytes).as_str(), u64::MAX) {
            Some(n) => n,
            None => 0,
        },
        None => 0,
    }
}

/// The line that a request leaves in the log. It holds nothing of the body.
pub fn request_guard(method: &str, path: &str, status: u16, length: u64, millis: u64) -> (line:
    String)
    ensures
        line@ == method@ + " "@ + path@ + " -> "@ + decimal_digits(status as nat) + " in="@
            + decimal_digits(length as nat) + "B "@ + decimal_digits(millis as nat) + "ms"@,
{
    let mut line = joined(method, " ");
    line.append(path);
    line.append(" -> ");
    line.append(decimal(status as u64).as_str());
    line.append(" in=");
    line.append(decimal(length).as_str());
    line.append("B ");
    line.append(decimal(millis).as_str());
    line.append("ms");
    line
}

/// Whether `bytes` begin with `front`.
pub open spec fn begins_with(bytes: Seq<u8>, front: Seq<u8>) -> bool {
    front.len() <= bytes.len() && bytes.subrange(0, front.len() as int) == front
}

/// Whether `bytes` begin with `front`.
fn starts_with(bytes: &[u8], front: &[u8]) -> (b: bool)
    ensures
        b == begins_with(bytes@, front@),
{
    front.len() <= bytes.len() && same_bytes(slice_subrange(bytes, 0, front.len()), front)
}

/// Whether an answer says that the service is well.
pub open spec fn says_well(answer: Seq<u8>) -> bool {
    begins_with(answer, encode_utf8("HTTP/1.1 200"@)) || begins_with(
        answer,
        encode_utf8("HTTP/1.0 200"@),
    )
}

/// Whether what the service answered says that it is well.
pub fn healthcheck(answer: &[u8]) -> (well: bool)
    ensures
        well == says_well(answer@),
        well == (begins_with(answer@, encode_utf8("HTTP/1.1 200"@)) || begins_with(
            answer@,
            encode_utf8("HTTP/1.0 200"@),
        )),
{
    starts_with(answer, "HTTP/1.1 200".as_bytes()) || starts_with(
        answer,
        "HTTP/1.0 200".as_bytes(),
    )
}

proof fn lemma_no_mark(text: Seq<u8>, from: int)
    requires
        0 <= from <= text.len(),
        forall|i: int| from <= i < text.len() ==> !#[trigger] scheme_ends_at(text, i),
    ensures
        scheme_end_from(text, from) == text.len(),
    decreases text.len() - from,
{
    if from < text.len() {
        lemma_no_mark(text, from + 1);
    }
}

proof fn lemma_first_mark(text: Seq<u8>, from: int, at: int)
    requires
        0 <= from <= at < text.len(),
        scheme_ends_at(text, at),
        forall|i: int| from <= i < at ==> !#[trigger] scheme_ends_at(text, i),
    ensures
        scheme_end_from(text, from) == at,
    decreases at - from,
{
    if from < at {
        lemma_first_mark(text, from + 1, at);
    }
}

/// The host of an origin is what stands behind its scheme, to the last byte: it is
/// the whole host, with its port, of whatever length.
pub proof fn law_origin_names_its_host(scheme: Seq<u8>, host: Seq<u8>)
    requires
        !scheme.contains(58u8),
        !host.contains(47u8),
    ensures
        origin_host_of(scheme + seq![58u8, 47u8, 47u8] + host) == host,
        origin_host_of(scheme + seq![58u8, 47u8, 47u8] + host + seq![47u8]) == host,
        origin_host_of(scheme).len() == 0,
{
    let origin = scheme + seq![58u8, 47u8, 47u8] + host;
    let slashed = origin + seq![47u8];
    let at = scheme.len() as int;
    assert forall|i: int| 0 <= i < at implies !#[trigger] scheme_ends_at(origin, i)
        && !scheme_ends_at(slashed, i) && !scheme_ends_at(scheme, i) by {
        assert(scheme.contains(scheme[i]));
        assert(origin[i] == scheme[i] && slashed[i] == scheme[i]);
    }
    lemma_first_mark(origin, 0, at);
    lemma_first_mark(slashed, 0, at);
    assert forall|i: int| 0 <= i < scheme.len() implies !#[trigger] scheme_ends_at(scheme, i) by {
        assert(scheme.contains(scheme[i]));
    }
    lemma_no_mark(scheme, 0);
    assert forall|i: int| at + 3 <= i < origin.len() implies !#[trigger] scheme_ends_at(
        origin,
        i,
    ) by {
        if i + 3 <= origin.len() {
            assert(origin[i + 1] == host[i + 1 - at - 3]);
            assert(host.contains(host[i + 1 - at - 3]));
        }
    }
    lemma_no_mark(origin, at + 3);
    assert forall|i: int| at + 3 <= i < slashed.len() implies !#[trigger] scheme_ends_at(
        slashed,
        i,
    ) by {
        if i + 3 <= slashed.len() {
            assert(slashed[i + 1] == host[i + 1 - at - 3]);
            assert(host.contains(host[i + 1 - at - 3]));
        }
    }
    lemma_no_mark(slashed, at + 3);
    assert(origin.subrange(at + 3, origin.len() as int) =~= host);
    let rest = slashed.subrange(at + 3, slashed.len() as int);
    assert(rest =~= host.push(47u8));
    assert(rest.drop_last() =~= host);
    if host.len() > 0 {
        assert(host.contains(host.last()));
    }
}

/// Whether a header is missing, or holds bytes that are not visible in ASCII: then
/// it counts for nothing.
pub open spec fn counts_for_nothing(value: Option<Vec<u8>>) -> bool {
    value matches Some(v) ==> exists|i: int|
        0 <= i < v@.len() && (#[trigger] v@[i] < 32 || v@[i] >= 127) && v@[i] != 9
}

/// Whether the browser says that the request comes from the service's own site or
/// from nowhere else, or says nothing.
pub open spec fn says_own_site(head: RequestHead) -> bool {
    counts_for_nothing(head.site) || head.site->Some_0@ == encode_utf8("same-origin"@)
        || head.site->Some_0@ == encode_utf8("none"@)
}

/// A request whose origin names the host that it was sent to, and no other, comes
/// from the service's own pages. One whose origin names another host does not, and
/// neither does one that its browser says comes from elsewhere. A request that says
/// nothing of where it comes from is taken for one of the service's own.
pub proof fn law_own_pages_are_let_through(head: RequestHead, scheme: Seq<u8>, host: Seq<u8>)
    requires
        !scheme.contains(58u8),
        !host.contains(47u8),
        host.len() > 0,
    ensures
        counts_for_nothing(head.origin) ==> (is_same_origin(head) <==> says_own_site(head)),
        !counts_for_nothing(head.origin) && !counts_for_nothing(head.host)
            && head.origin->Some_0@ == scheme + seq![58u8, 47u8, 47u8] + host ==> (is_same_origin(
            head,
        ) <==> says_own_site(head) && head.host->Some_0@ == host),
        !counts_for_nothing(head.origin) && counts_for_nothing(head.host) ==> !is_same_origin(
            head,
        ),
{
    law_origin_names_its_host(scheme, host);
    lemma_counts(head.site);
    lemma_counts(head.origin);
    lemma_counts(head.host);
}

proof fn lemma_counts(value: Option<Vec<u8>>)
    ensures
        counts_for_nothing(value) <==> header_text_of(value) is None,
        !counts_for_nothing(value) ==> value is Some && header_text_of(value) == Some(
            value->Some_0@,
        ),
{
    if let Some(v) = value {
        if !is_header_text(v@) {
            let i = choose|i: int|
                0 <= i < v@.len() && !(32 <= #[trigger] v@[i] < 127 || v@[i] == 9);
            assert((v@[i] < 32 || v@[i] >= 127) && v@[i] != 9);
        }
    }
}

/// A request carries the token when its header is the token, byte for byte, and
/// not when it is shorter, longer or different.
pub proof fn law_token_has_to_be_the_same(head: RequestHead, expected: Seq<u8>)
    requires
        expected.len() > 0,
    ensures
        has_token(head, expected) <==> (!counts_for_nothing(head.token)
            && head.token->Some_0@ == expected),
{
    lemma_counts(head.token);
}

/// A request claims the length that its header says in digits, of whatever size. A
/// header that is missing or is no number says nothing.
pub proof fn law_claimed_length_is_what_it_says(value: Option<Vec<u8>>, n: u64)
    ensures
        value is None ==> claimed_length(value) == 0,
        value is Some && ascii_chars(value->Some_0@) == decimal_digits(n as nat) && (forall|i: int|
            0 <= i < value->Some_0@.len() ==> #[trigger] value->Some_0@[i] < 127)
            ==> claimed_length(value) == n,
{
    law_digits_give_number(n as nat, u64::MAX);
    if let Some(v) = value {
        let text = ascii_chars(v@);
        if text == decimal_digits(n as nat) && (forall|i: int|
            0 <= i < v@.len() ==> #[trigger] v@[i] < 127) {
            assert forall|i: int| 0 <= i < v@.len() implies 32 <= #[trigger] v@[i] < 127 by {
                assert(text[i] == v@[i] as char);
                assert('0' <= decimal_digits(n as nat)[i] <= '9');
            }
            assert(is_header_text(v@));
        }
    }
}

/// Bytes begin with others when those others stand in front of something.
pub proof fn law_begins_with(front: Seq<u8>, rest: Seq<u8>, bytes: Seq<u8>)
    ensures
        begins_with(front + rest, front),
        begins_with(bytes, front) ==> exists|behind: Seq<u8>| bytes == #[trigger] (front + behind),
{
    assert((front + rest).subrange(0, front.len() as int) =~= front);
    if begins_with(bytes, front) {
        let behind = bytes.skip(front.len() as int);
        assert(bytes =~= front + behind);
    }
}

/// A request that changes nothing is let through. One that does has to come from the
/// service's own pages, and to carry the token, byte for byte, where one is expected.
/// Nothing else keeps a request out.
pub proof fn law_requests_are_let_through(head: RequestHead, token: Seq<char>)
    requires
        encode_utf8(token).len() > 0,
    ensures
        !head.is_post ==> lets_through(head, None) && lets_through(head, Some(token)),
        head.is_post ==> (lets_through(head, None) <==> is_same_origin(head)),
        head.is_post ==> (lets_through(head, Some(token)) <==> is_same_origin(head)
            && !counts_for_nothing(head.token) && head.token->Some_0@ == encode_utf8(token)),
{
    law_token_has_to_be_the_same(head, encode_utf8(token));
}

/// An answer says that the service is well when it begins with the version of the
/// protocol and the status 200, whatever follows.
pub proof fn law_only_success_is_well(answer: Seq<u8>)
    ensures
        says_well(answer) <==> {
            &&& answer.len() >= 12
            &&& answer.subrange(0, 7) == seq![72u8, 84, 84, 80, 47, 49, 46]
            &&& answer[7] == 48 || answer[7] == 49
            &&& answer.subrange(8, 12) == seq![32u8, 50, 48, 48]
        },
{
    reveal_strlit("HTTP/1.1 200");
    reveal_strlit("HTTP/1.0 200");
    is_ascii_chars_encode_utf8("HTTP/1.1 200"@);
    is_ascii_chars_encode_utf8("HTTP/1.0 200"@);
    let newer = encode_utf8("HTTP/1.1 200"@);
    let older = encode_utf8("HTTP/1.0 200"@);
    let front = seq![72u8, 84, 84, 80, 47, 49, 46];
    let end = seq![32u8, 50, 48, 48];
    assert(newer =~= front + seq![49u8] + end);
    assert(older =~= front + seq![48u8] + end);
    if answer.len() >= 12 {
        let begin = answer.subrange(0, 12);
        assert(begin =~= answer.subrange(0, 7) + seq![answer[7]] + answer.subrange(8, 12));
        assert(answer.subrange(0, 7) =~= begin.subrange(0, 7));
        assert(answer.subrange(8, 12) =~= begin.subrange(8, 12));
        assert(newer.subrange(0, 7) =~= front && older.subrange(0, 7) =~= front);
        assert(newer.subrange(8, 12) =~= end && older.subrange(8, 12) =~= end);
        assert(begin[7] == answer[7]);
        assert(newer[7] == 49 && older[7] == 48);
    }
}

} // verus!
