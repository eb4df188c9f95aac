//! The addresses of the completion service and how requests identify themselves to it.

use crate::text;
use vstd::prelude::*;
use vstd::slice::slice_subrange;
use vstd::string::*;

verus! {

/// Where the service is unless the settings say otherwise.
pub const CURSOR_TAB_API_URL: &'static str = "https://us-only.gcpp.cursor.sh";

/// The model that is asked unless the settings say otherwise.
pub const CURSOR_TAB_MODEL: &'static str = "fast";

/// The path of the completion method.
pub const STREAM_CPP_PATH: &'static str = "aiserver.v1.AiService/StreamCpp";

/// The path of the file synchronisation methods.
pub const FILE_SYNC_SERVICE_PATH: &'static str = "aiserver.v1.FileSyncService/";

/// The address of the service is empty.
#[derive(Clone, Copy, Debug, PartialEq, Eq)]
pub struct EmptyApiUrl;

// ---------------------------------------------------------------------------
// Addresses
// ---------------------------------------------------------------------------

/// A text without the slashes at its end.
pub open spec fn without_slashes(s: Seq<char>) -> Seq<char>
    decreases s.len(),
{
    if s.len() > 0 && s.last() == '/' {
        without_slashes(s.drop_last())
    } else {
        s
    }
}

/// The address of a path of the service, unless the service has no address.
pub open spec fn service_url(api_url: Seq<char>, path: Seq<char>) -> Option<Seq<char>> {
    if without_slashes(api_url).len() == 0 {
        None
    } else {
        Some(without_slashes(api_url) + "/"@ + path)
    }
}

/// The address of a path of the service.
fn join_url(api_url: &str, path: &str) -> (r: Result<String, EmptyApiUrl>)
    ensures
        match r {
            Ok(url) => service_url(api_url@, path@) == Some(url@),
            Err(_) => service_url(api_url@, path@) is None,
        },
{
    let chars: Vec<char> = text::chars_of(api_url);
    let mut end: usize = chars.len();
    assert(chars@.take(end as int) =~= chars@);
    while end > 0 && chars[end - 1] == '/'
        invariant
            end <= chars@.len(),
            without_slashes(chars@) == without_slashes(chars@.take(end as int)),
        decreases end,
    {
        assert(chars@.take(end as int).drop_last() =~= chars@.take(end - 1));
        end -= 1;
    }
    if end == 0 {
        return Err(EmptyApiUrl);
    }
    assert(chars@.subrange(0, end as int) =~= chars@.take(end as int));
    let mut url: String = text::string_of(slice_subrange(chars.as_slice(), 0, end));
    url.append("/");
    url.append(path);
    Ok(url)
}

/// The address of a method of the file synchronisation service.
pub fn file_sync_api_url(api_url: &str, method_name: &str) -> (r: Result<String, EmptyApiUrl>)
    ensures
        match r {
            Ok(url) => service_url(api_url@, FILE_SYNC_SERVICE_PATH@ + method_name@) == Some(url@),
            Err(_) => service_url(api_url@, FILE_SYNC_SERVICE_PATH@ + method_name@) is None,
        },
{
    let mut path: String = FILE_SYNC_SERVICE_PATH.to_owned();
    path.append(method_name);
    join_url(api_url, path.as_str())
}

/// The address of the completion method.
pub fn stream_cpp_api_url(api_url: &str) -> (r: Result<String, EmptyApiUrl>)
    ensures
        match r {
            Ok(url) => service_url(api_url@, STREAM_CPP_PATH@) == Some(url@),
            Err(_) => service_url(api_url@, STREAM_CPP_PATH@) is None,
        },
{
    join_url(api_url, STREAM_CPP_PATH)
}

// ---------------------------------------------------------------------------
// Authorization
// ---------------------------------------------------------------------------

/// Whether a character is the given lower case one, in either case.
pub open spec fn is_letter(c: char, lower: char) -> bool {
    c == lower || ('a' <= lower <= 'z' && c as u32 == lower as u32 - 32)
}

/// Whether a text begins with a given lower case one, in either case.
pub open spec fn begins_in_any_case(s: Seq<char>, lower: Seq<char>) -> bool {
    &&& lower.len() <= s.len()
    &&& forall|i: int| 0 <= i < lower.len() ==> is_letter(#[trigger] s[i], lower[i])
}

/// The value of the authorization header for a token, which may name the scheme already.
pub open spec fn authorization(token: Seq<char>) -> Seq<char> {
    let bare = text::trimmed(token);
    if begins_in_any_case(bare, "bearer "@) {
        bare
    } else {
        "Bearer "@ + bare
    }
}

/// The value of the authorization header for a token.
pub fn authorization_header_value(token: &str) -> (value: String)
    ensures
        value@ == authorization(token@),
{
    let chars: Vec<char> = text::chars_of(token);
    let bare: &[char] = text::trim(chars.as_slice());
    let scheme: Vec<char> = text::chars_of("bearer ");
    let bare_text: String = text::string_of(bare);
    let mut named: bool = scheme.len() <= bare.len();
    let mut i: usize = 0;
    while named && i < scheme.len()
        invariant
            i <= scheme@.len(),
            scheme@ == "bearer "@,
            named ==> scheme@.len() <= bare@.len() && forall|j: int|
                0 <= j < i ==> is_letter(#[trigger] bare@[j], scheme@[j]),
            !named ==> !begins_in_any_case(bare@, scheme@),
        decreases scheme@.len() - i, named as int,
    {
        let lower: char = scheme[i];
        let c: char = bare[i];
        if !(c == lower || ('a' <= lower && lower <= 'z' && c as u32 == lower as u32 - 32)) {
            assert(!is_letter(bare@[i as int], scheme@[i as int]));
            named = false;
        } else {
            i += 1;
        }
    }
    if named {
        bare_text
    } else {
        let mut value: String = "Bearer ".to_owned();
        value.append(bare_text.as_str());
        value
    }
}

// ---------------------------------------------------------------------------
// Headers
// ---------------------------------------------------------------------------

/// A header of a request.
#[derive(Debug, PartialEq, Eq)]
pub struct Header {
    pub name: &'static str,
    pub value: String,
}

/// The names and values of headers.
pub open spec fn header_fields(headers: Seq<Header>) -> Seq<(Seq<char>, Seq<char>)> {
    Seq::new(headers.len(), |i: int| (headers[i].name@, headers[i].value@))
}

/// What every request says of the client.
pub open spec fn client_fields(content_type: Seq<char>, client_version: Seq<char>) -> Seq<
    (Seq<char>, Seq<char>),
> {
    seq![
        ("content-type"@, content_type),
        ("connect-protocol-version"@, "1"@),
        ("x-cursor-client-type"@, "ide"@),
        ("x-cursor-client-version"@, client_version),
    ]
}

/// The headers of a completion request.
pub open spec fn stream_cpp_fields(
    client_version: Seq<char>,
    request_id: Seq<char>,
    session_id: Seq<char>,
    token: Seq<char>,
) -> Seq<(Seq<char>, Seq<char>)> {
    client_fields("application/connect+proto"@, client_version) + seq![
        ("x-cursor-streaming"@, "true"@),
        ("x-request-id"@, request_id),
        ("x-session-id"@, session_id),
        ("authorization"@, authorization(token)),
    ]
}

/// The headers of a file synchronisation request.
pub open spec fn file_sync_fields(
    client_version: Seq<char>,
    request_id: Seq<char>,
    session_id: Seq<char>,
    client_key: Seq<char>,
    token: Seq<char>,
    cookie: Seq<char>,
) -> Seq<(Seq<char>, Seq<char>)> {
    client_fields("application/proto"@, client_version) + seq![
        ("x-request-id"@, request_id),
        ("x-session-id"@, session_id),
        ("x-fs-client-key"@, client_key),
        ("authorization"@, authorization(token)),
        ("cookie"@, cookie),
    ]
}

/// Adds a header.
fn add_header(headers: &mut Vec<Header>, name: &'static str, value: &str)
    ensures
        header_fields(final(headers)@) == header_fields(old(headers)@).push((name@, value@)),
{
    let ghost held = header_fields(headers@);
    headers.push(Header { name, value: value.to_owned() });
    assert(header_fields(headers@) =~= held.push((name@, value@)));
}

/// What every request says of the client.
fn client_headers(content_type: &str, client_version: &str) -> (headers: Vec<Header>)
    ensures
        header_fields(headers@) == client_fields(content_type@, client_version@),
{
    let mut headers: Vec<Header> = Vec::new();
    assert(header_fields(headers@) =~= Seq::empty());
    add_header(&mut headers, "content-type", content_type);
    add_header(&mut headers, "connect-protocol-version", "1");
    add_header(&mut headers, "x-cursor-client-type", "ide");
    add_header(&mut headers, "x-cursor-client-version", client_version);
    assert(header_fields(headers@) =~= client_fields(content_type@, client_version@));
    headers
}

/// The headers of a completion request.
pub fn stream_cpp_headers(
    client_version: &str,
    request_id: &str,
    session_id: &str,
    bearer_token: &str,
) -> (headers: Vec<Header>)
    ensures
        header_fields(headers@) == stream_cpp_fields(
            client_version@,
            request_id@,
            session_id@,
            bearer_token@,
        ),
{
    let mut headers: Vec<Header> = client_headers("application/connect+proto", client_version);
    let authorization: String = authorization_header_value(bearer_token);
    add_header(&mut headers, "x-cursor-streaming", "true");
    add_header(&mut headers, "x-request-id", request_id);
    add_header(&mut headers, "x-session-id", session_id);
    add_header(&mut headers, "authorization", authorization.as_str());
    assert(header_fields(headers@) =~= stream_cpp_fields(
        client_version@,
        request_id@,
        session_id@,
        bearer_token@,
    ));
    headers
}

/// The headers of a file synchronisation request.
pub fn file_sync_headers(
    client_version: &str,
    request_id: &str,
    session_id: &str,
    file_sync_client_key: &str,
    bearer_token: &str,
    cookie: &str,
) -> (headers: Vec<Header>)
    ensures
        header_fields(headers@) == file_sync_fields(
            client_version@,
            request_id@,
            session_id@,
            file_sync_client_key@,
            bearer_token@,
            cookie@,
        ),
{
    let mut headers: Vec<Header> = client_headers("application/proto", client_version);
    let authorization: String = authorization_header_value(bearer_token);
    add_header(&mut headers, "x-request-id", request_id);
    add_header(&mut headers, "x-session-id", session_id);
    add_header(&mut headers, "x-fs-client-key", file_sync_client_key);
    add_header(&mut headers, "authorization", authorization.as_str());
    add_header(&mut headers, "cookie", cookie);
    assert(header_fields(headers@) =~= file_sync_fields(
        client_version@,
        request_id@,
        session_id@,
        file_sync_client_key@,
        bearer_token@,
        cookie@,
    ));
    headers
}

// ---------------------------------------------------------------------------
// What addresses and tokens become
// ---------------------------------------------------------------------------

/// An address is the given one without the slashes at its end, a slash, and the path. There is
/// none when nothing but slashes is given.
pub proof fn lemma_service_url(api_url: Seq<char>, path: Seq<char>)
    ensures
        match service_url(api_url, path) {
            Some(url) => exists|n: int|
                {
                    &&& 0 < n <= api_url.len()
                    &&& url == (#[trigger] api_url.take(n)) + seq!['/'] + path
                    &&& api_url[n - 1] != '/'
                    &&& forall|i: int| n <= i < api_url.len() ==> #[trigger] api_url[i] == '/'
                },
            None => forall|i: int| 0 <= i < api_url.len() ==> #[trigger] api_url[i] == '/',
        },
{
    reveal_strlit("/");
    lemma_without_slashes(api_url);
    let n = without_slashes(api_url).len() as int;
    assert("/"@ =~= seq!['/']);
    if n > 0 {
        assert(api_url.take(n)[n - 1] == api_url[n - 1]);
    }
}

proof fn lemma_without_slashes(s: Seq<char>)
    ensures
        without_slashes(s).len() <= s.len(),
        without_slashes(s) == s.take(without_slashes(s).len() as int),
        without_slashes(s).len() > 0 ==> without_slashes(s).last() != '/',
        forall|i: int| without_slashes(s).len() <= i < s.len() ==> #[trigger] s[i] == '/',
    decreases s.len(),
{
    if s.len() > 0 && s.last() == '/' {
        let head = s.drop_last();
        lemma_without_slashes(head);
        let n = without_slashes(s).len() as int;
        assert(head.take(n) =~= s.take(n));
        assert forall|i: int| n <= i < s.len() implies #[trigger] s[i] == '/' by {
            if i < head.len() {
                assert(head[i] == '/');
            }
        }
    } else {
        assert(s.take(s.len() as int) =~= s);
    }
}

/// A token that begins with the name of the scheme, in whatever case, and a space is sent as
/// it is; any other has the scheme put in front. White space around it does not matter.
pub proof fn lemma_authorization(token: Seq<char>)
    ensures
        ({
            let bare = text::trimmed(token);
            let named = {
                &&& bare.len() >= 7
                &&& bare[0] == 'b' || bare[0] == 'B'
                &&& bare[1] == 'e' || bare[1] == 'E'
                &&& bare[2] == 'a' || bare[2] == 'A'
                &&& bare[3] == 'r' || bare[3] == 'R'
                &&& bare[4] == 'e' || bare[4] == 'E'
                &&& bare[5] == 'r' || bare[5] == 'R'
                &&& bare[6] == ' '
            };
            &&& named ==> authorization(token) == bare
            &&& !named ==> authorization(token) == seq!['B', 'e', 'a', 'r', 'e', 'r', ' '] + bare
        }),
{
    reveal_strlit("bearer ");
    reveal_strlit("Bearer ");
    let bare = text::trimmed(token);
    let lower = "bearer "@;
    assert("Bearer "@ =~= seq!['B', 'e', 'a', 'r', 'e', 'r', ' ']);
    if bare.len() >= 7 {
        lemma_letter(bare[0], 'b', 'B');
        lemma_letter(bare[1], 'e', 'E');
        lemma_letter(bare[2], 'a', 'A');
        lemma_letter(bare[3], 'r', 'R');
        lemma_letter(bare[4], 'e', 'E');
        lemma_letter(bare[5], 'r', 'R');
        assert(lower.len() == 7);
        assert(begins_in_any_case(bare, lower) <==> {
            &&& is_letter(bare[0], lower[0])
            &&& is_letter(bare[1], lower[1])
            &&& is_letter(bare[2], lower[2])
            &&& is_letter(bare[3], lower[3])
            &&& is_letter(bare[4], lower[4])
            &&& is_letter(bare[5], lower[5])
            &&& is_letter(bare[6], lower[6])
        });
    }
}

proof fn lemma_letter(c: char, lower: char, upper: char)
    requires
        'a' <= lower <= 'z',
        upper as int == lower as int - 32,
    ensures
        is_letter(c, lower) <==> c == lower || c == upper,
{
    if c as u32 == upper as u32 {
        assert(c as int == upper as int);
        assert(c == upper);
    }
}

} // verus!
