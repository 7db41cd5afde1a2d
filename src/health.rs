//! Health probes: the request that a probe sends and the classification of the reply.
use vstd::prelude::*;
use vstd::string::StringSliceAdditionalSpecFns;
use crate::endpoint::{Endpoint, endpoint_bytes};
use crate::text::{
    split_on, u16_of, parse_u16_range, split_ranges, lemma_split_on_first,
    lemma_split_on_without_sep, push_str_bytes,
};

verus! {

/// The status code read from a response line: split on spaces, fewer than three
/// pieces give 404, a second piece that is no `u16` gives 500.
pub open spec fn status_code_of(line: Seq<char>) -> u16 {
    let parts = split_on(line, ' ');
    if parts.len() < 3 {
        404
    } else {
        match u16_of(parts[1]) {
            Some(code) => code,
            None => 500,
        }
    }
}

pub fn read_status_code(str_slice: &str) -> (r: u16)
    ensures
        r == status_code_of(str_slice@),
{
    let n = str_slice.unicode_len();
    let parts = split_ranges(str_slice, 0, n, ' ');
    assert(str_slice@.subrange(0, n as int) =~= str_slice@);
    if parts.len() < 3 {
        return 404;
    }
    let (from, to) = parts[1];
    match parse_u16_range(str_slice, from, to) {
        Some(code) => code,
        None => 500,
    }
}

/// The first line of `s` as `str::lines` yields it: up to the first `\n`, with
/// one `\r` before that `\n` removed; all of `s` when it has no `\n`.
pub open spec fn first_line(s: Seq<char>) -> Seq<char> {
    let pieces = split_on(s, '\n');
    let line = pieces[0];
    if pieces.len() > 1 && line.len() > 0 && line.last() == '\r' {
        line.drop_last()
    } else {
        line
    }
}

/// A reply is healthy when its status code is below 400.
pub open spec fn reply_is_healthy(response: Seq<char>) -> bool {
    status_code_of(first_line(response)) < 400
}

/// The status code of the first line of a probe reply.
pub fn status_code_of_response(response: &str) -> (r: u16)
    ensures
        r == status_code_of(first_line(response@)),
{
    let n = response.unicode_len();
    let ghost s = response@;
    let mut k: usize = 0;
    while k < n && response.get_char(k) != '\n'
        invariant
            n == s.len(),
            s == response@,
            k <= n,
            forall|j: int| 0 <= j < k ==> s[j] != '\n',
        decreases n - k,
    {
        k = k + 1;
    }
    let mut end = k;
    if k < n {
        proof {
            lemma_split_on_first(s, '\n', k as int);
        }
        if k > 0 && response.get_char(k - 1) == '\r' {
            end = k - 1;
        }
    } else {
        proof {
            lemma_split_on_without_sep(s, '\n');
            assert(s.subrange(0, k as int) =~= s);
        }
    }
    let line = response.substring_char(0, end);
    assert(line@ =~= first_line(s));
    read_status_code(line)
}

/// The outcome of one probe: unhealthy when no connection could be opened
/// (`None`), otherwise healthy exactly when the reply's status code is below 400.
pub fn probe_verdict(reply: Option<&str>) -> (healthy: bool)
    ensures
        healthy == match reply {
            Some(response) => reply_is_healthy(response@),
            None => false,
        },
{
    match reply {
        Some(response) => status_code_of_response(response) < 400,
        None => false,
    }
}

/// The bytes of the probe request for `e`.
pub open spec fn probe_request(e: Endpoint) -> Seq<u8> {
    "GET /health_check HTTP/1.1\r\nHost: ".spec_bytes() + endpoint_bytes(e)
        + "\r\nConnection: close\r\n\r\n".spec_bytes()
}

/// `GET /health_check HTTP/1.1`, with `Host: a.b.c.d:port` and
/// `Connection: close`, as bytes.
pub fn health_check_request(e: &Endpoint) -> (r: Vec<u8>)
    ensures
        r@ == probe_request(*e),
{
    let mut out: Vec<u8> = Vec::new();
    push_str_bytes(&mut out, "GET /health_check HTTP/1.1\r\nHost: ");
    e.push_text(&mut out);
    push_str_bytes(&mut out, "\r\nConnection: close\r\n\r\n");
    assert(out@ =~= probe_request(*e));
    out
}

} // verus!
