//! Backend endpoints: an IPv4 address and a port, written `a.b.c.d:port`.
use vstd::prelude::*;
use crate::text::{split_on, decimal_of, parse_decimal, split_ranges, decimal_bytes, push_decimal};

verus! {

/// The endpoint `a.b.c.d:port`.
#[derive(Clone, Copy, Debug, PartialEq, Eq, Hash, Structural)]
pub struct Endpoint {
    pub a: u8,
    pub b: u8,
    pub c: u8,
    pub d: u8,
    pub port: u16,
}

/// The text is not of the form `a.b.c.d:port`.
#[derive(Clone, Copy, Debug, PartialEq, Eq, Structural)]
pub struct InvalidEndpoint;

/// One part of a dotted IPv4 address: one to three digits, no leading zero
/// unless the part is `0`, at most 255.
pub open spec fn octet_of(t: Seq<char>) -> Option<nat> {
    if t.len() <= 3 && !(t.len() > 1 && t[0] == '0') {
        decimal_of(t, 255)
    } else {
        None
    }
}

/// The endpoint that `s` denotes: four octets separated by `.`, then `:` and
/// a port of decimal digits at most 65535.
pub open spec fn endpoint_of(s: Seq<char>) -> Option<Endpoint> {
    let host_port = split_on(s, ':');
    if host_port.len() != 2 {
        None
    } else {
        let o = split_on(host_port[0], '.');
        if o.len() != 4 {
            None
        } else {
            match (
                octet_of(o[0]),
                octet_of(o[1]),
                octet_of(o[2]),
                octet_of(o[3]),
                decimal_of(host_port[1], 65535),
            ) {
                (Some(a), Some(b), Some(c), Some(d), Some(p)) => Some(
                    Endpoint { a: a as u8, b: b as u8, c: c as u8, d: d as u8, port: p as u16 },
                ),
                _ => None,
            }
        }
    }
}

/// `a.b.c.d:port` in decimal, as bytes.
pub open spec fn endpoint_bytes(e: Endpoint) -> Seq<u8> {
    decimal_bytes(e.a as nat) + seq![46u8] + decimal_bytes(e.b as nat) + seq![46u8] + decimal_bytes(
        e.c as nat,
    ) + seq![46u8] + decimal_bytes(e.d as nat) + seq![58u8] + decimal_bytes(e.port as nat)
}

/// Reads `s[from..to]` as one octet of a dotted address.
fn parse_octet(s: &str, from: usize, to: usize) -> (r: Option<u8>)
    requires
        from <= to <= s@.len(),
    ensures
        match r {
            Some(v) => octet_of(s@.subrange(from as int, to as int)) == Some(v as nat),
            None => octet_of(s@.subrange(from as int, to as int)) is None,
        },
{
    if to - from > 3 {
        return None;
    }
    if to - from > 1 && s.get_char(from) == '0' {
        return None;
    }
    match parse_decimal(s, from, to, 255) {
        Some(v) => Some(v as u8),
        None => None,
    }
}

impl Endpoint {
    pub fn new(a: u8, b: u8, c: u8, d: u8, port: u16) -> (r: Endpoint)
        ensures
            r == (Endpoint { a, b, c, d, port }),
    {
        Endpoint { a, b, c, d, port }
    }

    /// Appends `a.b.c.d:port` in decimal.
    pub fn push_text(&self, out: &mut Vec<u8>)
        ensures
            final(out)@ == old(out)@ + endpoint_bytes(*self),
    {
        push_decimal(out, self.a as u32);
        out.push(46u8);
        push_decimal(out, self.b as u32);
        out.push(46u8);
        push_decimal(out, self.c as u32);
        out.push(46u8);
        push_decimal(out, self.d as u32);
        out.push(58u8);
        push_decimal(out, self.port as u32);
        assert(final(out)@ =~= old(out)@ + endpoint_bytes(*self));
    }

    /// Parses `a.b.c.d:port`.
    pub fn parse(text: &str) -> (r: Result<Endpoint, InvalidEndpoint>)
        ensures
            match r {
                Ok(e) => endpoint_of(text@) == Some(e),
                Err(_) => endpoint_of(text@) is None,
            },
    {
        let n = text.unicode_len();
        let ghost s = text@;
        assert(s.subrange(0, n as int) =~= s);
        let host_port = split_ranges(text, 0, n, ':');
        if host_port.len() != 2 {
            return Err(InvalidEndpoint);
        }
        let (h0, h1) = host_port[0];
        let (p0, p1) = host_port[1];
        let octets = split_ranges(text, h0, h1, '.');
        if octets.len() != 4 {
            return Err(InvalidEndpoint);
        }
        let ghost o = split_on(split_on(s, ':')[0], '.');
        assert(octets@[0].0 <= octets@[0].1);
        assert(octets@[1].0 <= octets@[1].1);
        assert(octets@[2].0 <= octets@[2].1);
        assert(octets@[3].0 <= octets@[3].1);
        let a = parse_octet(text, octets[0].0, octets[0].1);
        let b = parse_octet(text, octets[1].0, octets[1].1);
        let c = parse_octet(text, octets[2].0, octets[2].1);
        let d = parse_octet(text, octets[3].0, octets[3].1);
        let port = parse_decimal(text, p0, p1, 65535);
        match (a, b, c, d, port) {
            (Some(a), Some(b), Some(c), Some(d), Some(port)) => Ok(
                Endpoint { a, b, c, d, port: port as u16 },
            ),
            _ => Err(InvalidEndpoint),
        }
    }
}

} // verus!
