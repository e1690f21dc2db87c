use vstd::prelude::*;

verus! {

/// The request that a probe sends: it elicits a status line and asks the
/// backend to close the connection afterwards.
pub const PROBE_REQUEST: &'static str = "GET / HTTP/1.1\r\nConnection: close\r\n\r\n";

/// A success status line: a protocol-version token followed by status 200.
pub const OK_STATUS_PATTERN: &'static str = "^HTTP/\\d\\.\\d 200";

/// Largest number of bytes that a probe reads from the backend.
pub const PROBE_CHUNK: usize = 4096;

/// What one probe of one backend came back with.
pub enum ProbeReply {
    /// The connection could not be opened.
    ConnectFailed,
    /// The request could not be sent.
    SendFailed,
    /// Reading the response failed.
    ReadFailed,
    /// No response came within the bound.
    TimedOut,
    /// The first chunk of the response; empty when the backend closed the
    /// stream without sending anything.
    Received(Vec<u8>),
}

/// Whether the regex crate accepts `pattern`.
pub uninterp spec fn regex_compiles(pattern: Seq<char>) -> bool;

/// Whether the regex crate finds a match of `pattern` anywhere in `haystack`.
pub uninterp spec fn regex_is_match(pattern: Seq<char>, haystack: Seq<u8>) -> bool;

/// Relies on `regex::bytes::Regex::new`, which compiles `pattern` or returns
/// an error, and on `regex::bytes::Regex::is_match`, which tells whether the
/// compiled pattern matches somewhere in `haystack`. Both depend on their
/// arguments alone.
#[verifier::external_body]
fn regex_search(pattern: &str, haystack: &[u8]) -> (r: Option<bool>)
    ensures
        r is Some <==> regex_compiles(pattern@),
        r matches Some(m) ==> m == regex_is_match(pattern@, haystack@),
{
    match regex::bytes::Regex::new(pattern) {
        Ok(re) => Some(re.is_match(haystack)),
        Err(_) => None,
    }
}

/// Whether the bytes begin with a success status line.
pub open spec fn status_ok(response: Seq<u8>) -> bool {
    regex_compiles(OK_STATUS_PATTERN@) && regex_is_match(OK_STATUS_PATTERN@, response)
}

/// The health that a probe reply stands for.
pub open spec fn reply_healthy(reply: ProbeReply) -> bool {
    match reply {
        ProbeReply::Received(bytes) => bytes@.len() > 0 && status_ok(bytes@),
        _ => false,
    }
}

/// Whether `response`, the first chunk a backend answered a probe with,
/// begins with a success status line.
pub fn status_line_ok(response: &[u8]) -> (r: bool)
    ensures
        r == status_ok(response@),
{
    match regex_search(OK_STATUS_PATTERN, response) {
        Some(m) => m,
        None => false,
    }
}

/// The outcome of one probe: healthy only when the backend answered with a
/// success status line. A failed connect, send or read, a timeout, and a
/// stream closed without data all count as unhealthy.
pub fn probe_healthy(reply: &ProbeReply) -> (r: bool)
    ensures
        r == reply_healthy(*reply),
{
    match reply {
        ProbeReply::Received(bytes) => bytes.len() > 0 && status_line_ok(bytes.as_slice()),
        _ => false,
    }
}

} // verus!
