//! `host:port` texts: server addresses and request authorities.

use crate::addr::{
    host_of_octets, ip_literal, parse_ip, AddrModel, Host, HostModel, IpAddr, ProxyAddr,
};
use crate::text::{
    chars_of, debug_text, decimal_text, find, first_index, is_digit_char, last_index,
    law_decimal_text, law_number_parses, law_separator_found, lemma_first_index, lower, number_text,
    parse_number, push_str, quoted, rfind, string_of, to_lower,
};
use vstd::prelude::*;
use vstd::slice::slice_subrange;

verus! {

/// Why a `host:port` text is refused.
#[derive(Debug, Clone, Copy, PartialEq, Eq, Structural)]
pub enum HostPortError {
    /// There is no `:port`.
    MissingPort,
    /// The port is no number below 65536.
    BadPort,
    /// An opening bracket has no closing one at the end of the host.
    UnmatchedBracket,
    /// What stands in brackets is no address.
    MalformedIpv6,
    /// An IPv6 address needs the `[addr]:port` form.
    BareIpv6,
    /// There is no host.
    EmptyHost,
}

impl HostPortError {
    /// The error in words, for the text `s`; `shown` and `port` are the quoted
    /// forms of it and of what follows its last colon.
    pub open spec fn text(self, shown: Seq<char>, port: Seq<char>) -> Seq<char> {
        match self {
            HostPortError::MissingPort => "missing port in "@ + shown,
            HostPortError::BadPort => "bad port "@ + port,
            HostPortError::UnmatchedBracket => "unmatched '[' in "@ + shown,
            HostPortError::MalformedIpv6 => "malformed IPv6 address in "@ + shown,
            HostPortError::BareIpv6 => "bare IPv6 address "@ + shown
                + " must use the [addr]:port form"@,
            HostPortError::EmptyHost => "empty host in "@ + shown,
        }
    }

    /// The error in words, with the quoted forms of the whole text and of what
    /// follows its last colon.
    pub fn describe(&self, shown: &str, port: &str) -> (r: String)
        ensures
            r@ == self.text(shown@, port@),
    {
        let mut out: String = String::new();
        match self {
            HostPortError::MissingPort => {
                push_str(&mut out, "missing port in ");
                push_str(&mut out, shown);
            },
            HostPortError::BadPort => {
                push_str(&mut out, "bad port ");
                push_str(&mut out, port);
            },
            HostPortError::UnmatchedBracket => {
                push_str(&mut out, "unmatched '[' in ");
                push_str(&mut out, shown);
            },
            HostPortError::MalformedIpv6 => {
                push_str(&mut out, "malformed IPv6 address in ");
                push_str(&mut out, shown);
            },
            HostPortError::BareIpv6 => {
                push_str(&mut out, "bare IPv6 address ");
                push_str(&mut out, shown);
                push_str(&mut out, " must use the [addr]:port form");
            },
            HostPortError::EmptyHost => {
                push_str(&mut out, "empty host in ");
                push_str(&mut out, shown);
            },
        }
        assert(out@ =~= self.text(shown@, port@));
        out
    }

    /// The error in words, for the text `s` that was refused.
    pub fn message(&self, s: &str) -> (r: String)
        ensures
            r@ == self.text(debug_text(s@), debug_text(after_colon(s@))),
    {
        let chars: Vec<char> = chars_of(s);
        let n: usize = chars.len();
        let start: usize = match rfind(chars.as_slice(), ':') {
            Some(i) => i + 1,
            None => 0,
        };
        let port: String = string_of(slice_subrange(chars.as_slice(), start, n));
        assert(port@ =~= after_colon(s@));
        let shown: String = quoted(s);
        let port_shown: String = quoted(port.as_str());
        self.describe(shown.as_str(), port_shown.as_str())
    }
}

/// What follows the last colon of `s`; all of it where there is none.
pub open spec fn after_colon(s: Seq<char>) -> Seq<char> {
    match last_index(s, ':') {
        Some(i) => s.skip(i + 1),
        None => s,
    }
}

/// The number of a port text, which may start with a plus sign.
pub open spec fn port_text(s: Seq<char>) -> Option<u16> {
    let digits: Seq<char> = if s.len() > 0 && s[0] == '+' {
        s.skip(1)
    } else {
        s
    };
    match number_text(digits, 65_535) {
        Some(n) => Some(n as u16),
        None => None,
    }
}

/// The host of a name: an address where it is the literal of one, else the
/// domain in lower case.
pub open spec fn named_host(name: Seq<char>) -> HostModel {
    host_with(name, ip_literal(name))
}

/// The host of a name with a given reading as an address literal.
pub open spec fn host_with(name: Seq<char>, literal: Option<Seq<u8>>) -> HostModel {
    match literal {
        Some(octets) => host_of_octets(octets),
        None => HostModel::Domain(lower(name)),
    }
}

/// The host in brackets with a given reading as an address literal: only an
/// address may stand there.
pub open spec fn bracketed(literal: Option<Seq<u8>>) -> Result<HostModel, HostPortError> {
    match literal {
        Some(octets) => Ok(host_of_octets(octets)),
        None => Err(HostPortError::MalformedIpv6),
    }
}

/// The parts of a text of the form `[addr%zone]:port` with a decimal zone:
/// the address text and the port.
pub open spec fn zoned(s: Seq<char>) -> Option<(Seq<char>, u16)> {
    match last_index(s, ':') {
        None => None,
        Some(colon) => {
            let head: Seq<char> = s.take(colon);
            let port: Option<nat> = number_text(s.skip(colon + 1), 65_535);
            let inner: Seq<char> = head.subrange(1, head.len() - 1);
            match first_index(inner, '%') {
                Some(pct) => if head.len() >= 2 && head[0] == '[' && head.last() == ']' && port
                    is Some && number_text(inner.skip(pct + 1), 0xffff_ffff) is Some {
                    Some((inner.take(pct), port->Some_0 as u16))
                } else {
                    None
                },
                None => None,
            }
        },
    }
}

/// The host and port of a text whose last part is a port: domain names,
/// `[v6]:port` and literal addresses. Only an address may stand in brackets.
pub open spec fn plain_host_port(s: Seq<char>) -> Result<(HostModel, u16), HostPortError> {
    match last_index(s, ':') {
        None => Err(HostPortError::MissingPort),
        Some(colon) => {
            let host: Seq<char> = s.take(colon);
            match port_text(s.skip(colon + 1)) {
                None => Err(HostPortError::BadPort),
                Some(port) => if host.len() > 0 && host[0] == '[' {
                    if host.len() < 2 || host.last() != ']' {
                        Err(HostPortError::UnmatchedBracket)
                    } else if host.len() == 2 {
                        Err(HostPortError::EmptyHost)
                    } else {
                        match bracketed(ip_literal(host.subrange(1, host.len() - 1))) {
                            Ok(h) => Ok((h, port)),
                            Err(e) => Err(e),
                        }
                    }
                } else if first_index(host, ':') is Some {
                    Err(HostPortError::BareIpv6)
                } else if host.len() == 0 {
                    Err(HostPortError::EmptyHost)
                } else {
                    Ok((named_host(host), port))
                },
            }
        },
    }
}

/// The host and port of a text. An IPv6 address may carry a zone, which is
/// dropped.
pub open spec fn host_port(s: Seq<char>) -> Result<(HostModel, u16), HostPortError> {
    match zoned(s) {
        Some((addr, port)) => match ip_literal(addr) {
            Some(octets) => if octets.len() == 16 {
                Ok((HostModel::V6(octets), port))
            } else {
                plain_host_port(s)
            },
            None => plain_host_port(s),
        },
        None => plain_host_port(s),
    }
}

/// A server address `name:port` parses to that name and that port, for every
/// name without a colon or an opening bracket and every port from 0 to 65535. A
/// name that is the literal of an address stands for the address. No greater
/// port is accepted.
pub proof fn law_host_and_port_parse(name: Seq<char>, port: nat)
    requires
        name.len() > 0,
        name[0] != '[',
        !name.contains(':'),
    ensures
        port <= 65_535 ==> host_port(name + seq![':'] + decimal_text(port)) == Ok::<
            (HostModel, u16),
            HostPortError,
        >(
            (
                match ip_literal(name) {
                    Some(o) => if o.len() == 4 {
                        HostModel::V4(o)
                    } else {
                        HostModel::V6(o)
                    },
                    None => HostModel::Domain(lower(name)),
                },
                port as u16,
            ),
        ),
        port > 65_535 ==> host_port(name + seq![':'] + decimal_text(port)) == Err::<
            (HostModel, u16),
            HostPortError,
        >(HostPortError::BadPort),
{
    lemma_split_at_port(name, port);
    law_separator_found(name, ':', decimal_text(port));
}

/// A server address `[addr]:port` parses to that address and that port, for
/// every port from 0 to 65535; with anything but the literal of an address in
/// the brackets it is refused.
pub proof fn law_bracketed_address_parses(addr: Seq<char>, port: nat)
    requires
        addr.len() > 0,
        !addr.contains('%'),
        port <= 65_535,
    ensures
        host_port(seq!['['] + addr + seq![']', ':'] + decimal_text(port)) == match ip_literal(addr) {
            Some(o) => Ok::<(HostModel, u16), HostPortError>(
                (
                    if o.len() == 4 {
                        HostModel::V4(o)
                    } else {
                        HostModel::V6(o)
                    },
                    port as u16,
                ),
            ),
            None => Err::<(HostModel, u16), HostPortError>(HostPortError::MalformedIpv6),
        },
{
    let head: Seq<char> = seq!['['] + addr + seq![']'];
    let s: Seq<char> = seq!['['] + addr + seq![']', ':'] + decimal_text(port);
    assert(s =~= head + seq![':'] + decimal_text(port));
    lemma_split_at_port(head, port);
    assert(head.subrange(1, head.len() - 1) =~= addr);
    law_separator_found(addr, '%', addr);
}

/// An IPv6 address with a numeric zone parses to the address without the zone.
pub proof fn law_zone_is_dropped(addr: Seq<char>, zone: nat, port: nat)
    requires
        !addr.contains('%'),
        ip_literal(addr) matches Some(o) && o.len() == 16,
        zone <= 0xffff_ffff,
        port <= 65_535,
    ensures
        host_port(
            seq!['['] + addr + seq!['%'] + decimal_text(zone) + seq![']', ':'] + decimal_text(port),
        ) == Ok::<(HostModel, u16), HostPortError>(
            (HostModel::V6(ip_literal(addr)->Some_0), port as u16),
        ),
{
    let inner: Seq<char> = addr + seq!['%'] + decimal_text(zone);
    let head: Seq<char> = seq!['['] + inner + seq![']'];
    let s: Seq<char> = seq!['['] + addr + seq!['%'] + decimal_text(zone) + seq![']', ':']
        + decimal_text(port);
    assert(s =~= head + seq![':'] + decimal_text(port));
    lemma_split_at_port(head, port);
    assert(head.subrange(1, head.len() - 1) =~= inner);
    law_separator_found(addr, '%', decimal_text(zone));
    law_number_parses(zone, 0xffff_ffff);
    law_number_parses(port, 65_535);
}

/// What is no server address is refused, each for its reason: a text without a
/// colon, an IPv6 address without brackets, an opening bracket that is not
/// closed, and an empty host.
pub proof fn law_bad_addresses_refused(name: Seq<char>, port: nat)
    requires
        port <= 65_535,
    ensures
        !name.contains(':') ==> host_port(name) == Err::<(HostModel, u16), HostPortError>(
            HostPortError::MissingPort,
        ),
        name.contains(':') && name[0] != '[' ==> host_port(
            name + seq![':'] + decimal_text(port),
        ) == Err::<(HostModel, u16), HostPortError>(HostPortError::BareIpv6),
        name.len() > 0 && name[0] == '[' && name.last() != ']' ==> host_port(
            name + seq![':'] + decimal_text(port),
        ) == Err::<(HostModel, u16), HostPortError>(HostPortError::UnmatchedBracket),
        host_port(seq![':'] + decimal_text(port)) == Err::<(HostModel, u16), HostPortError>(
            HostPortError::EmptyHost,
        ),
        host_port(seq!['[', ']', ':'] + decimal_text(port)) == Err::<
            (HostModel, u16),
            HostPortError,
        >(HostPortError::EmptyHost),
{
    law_separator_found(name, ':', name);
    lemma_split_at_port(name, port);
    let none: Seq<char> = Seq::empty();
    lemma_split_at_port(none, port);
    assert(none + seq![':'] + decimal_text(port) =~= seq![':'] + decimal_text(port));
    law_separator_found(none, ':', none);
    let pair: Seq<char> = seq!['[', ']'];
    lemma_split_at_port(pair, port);
    assert(pair + seq![':'] + decimal_text(port) =~= seq!['[', ']', ':'] + decimal_text(port));
    assert(pair.subrange(1, 1) =~= none);
    law_separator_found(none, '%', none);
}

/// A port that is no number is refused: anything that holds a character other
/// than a digit, but for one plus sign in front, and nothing at all.
pub proof fn law_port_is_a_number(name: Seq<char>, port: Seq<char>, i: int)
    requires
        name.len() > 0,
        name[0] != '[',
        !port.contains(':'),
        port.len() == 0 || (0 <= i < port.len() && !('0' <= port[i] <= '9') && (i > 0 || port[i]
            != '+')),
    ensures
        host_port(name + seq![':'] + port) == Err::<(HostModel, u16), HostPortError>(
            HostPortError::BadPort,
        ),
{
    law_separator_found(name, ':', port);
    let s: Seq<char> = name + seq![':'] + port;
    assert(s.take(name.len() as int) =~= name);
    if port.len() > 0 {
        assert(!is_digit_char(port[i]));
        if port[0] == '+' {
            assert(port.skip(1)[i - 1] == port[i]);
        }
    }
}

/// A text that ends in a colon and a number splits there.
proof fn lemma_split_at_port(head: Seq<char>, port: nat)
    ensures
        last_index(head + seq![':'] + decimal_text(port), ':') == Some(head.len() as int),
        (head + seq![':'] + decimal_text(port)).take(head.len() as int) == head,
        (head + seq![':'] + decimal_text(port)).skip(head.len() as int + 1) == decimal_text(port),
        port_text(decimal_text(port)) == if port <= 65_535 {
            Some(port as u16)
        } else {
            None
        },
        decimal_text(port).len() > 0,
{
    let digits: Seq<char> = decimal_text(port);
    law_decimal_text(port);
    law_number_parses(port, 65_535);
    assert(is_digit_char(digits[0]));
    if digits.contains(':') {
        let i: int = choose|i: int| 0 <= i < digits.len() && digits[i] == ':';
        assert(is_digit_char(digits[i]));
    }
    law_separator_found(head, ':', digits);
}

/// The number of a port text, which may start with a plus sign.
pub fn parse_port(s: &[char]) -> (r: Option<u16>)
    ensures
        r == port_text(s@),
{
    let n: usize = s.len();
    let digits: &[char] = if n > 0 && s[0] == '+' { slice_subrange(s, 1, n) } else { s };
    proof {
        if n > 0 && s@[0] == '+' {
            assert(digits@ =~= s@.skip(1));
        }
    }
    match parse_number(digits, 65_535) {
        Some(p) => Some(p as u16),
        None => None,
    }
}

/// The host of a name with a given reading as an address literal.
pub fn host_from(name: &[char], literal: Option<IpAddr>) -> (r: Host)
    ensures
        r@ == host_with(
            name@,
            match literal {
                Some(ip) => Some(ip.octets()),
                None => None::<Seq<u8>>,
            },
        ),
{
    match literal {
        Some(ip) => Host::Ip(ip),
        None => {
            let text: Vec<char> = to_lower(name);
            Host::Domain(string_of(text.as_slice()))
        },
    }
}

/// The host in brackets with a given reading as an address literal.
pub fn bracketed_host(literal: Option<IpAddr>) -> (r: Result<Host, HostPortError>)
    ensures
        match bracketed(
            match literal {
                Some(ip) => Some(ip.octets()),
                None => None::<Seq<u8>>,
            },
        ) {
            Ok(h) => r matches Ok(v) && v@ == h,
            Err(e) => r == Err::<Host, HostPortError>(e),
        },
{
    match literal {
        Some(ip) => Ok(Host::Ip(ip)),
        None => Err(HostPortError::MalformedIpv6),
    }
}

/// The host of a name.
fn resolve_name(name: &[char]) -> (r: Host)
    ensures
        r@ == named_host(name@),
{
    let text: String = string_of(name);
    let literal: Option<IpAddr> = parse_ip(text.as_str());
    host_from(name, literal)
}

/// Reads a text of the form `[addr%zone]:port`.
fn parse_zoned(s: &[char]) -> (r: Option<(IpAddr, u16)>)
    ensures
        match zoned(s@) {
            Some((addr, port)) => match ip_literal(addr) {
                Some(octets) => if octets.len() == 16 {
                    r matches Some(v) && v.0.octets() == octets && v.1 == port
                } else {
                    r is None
                },
                None => r is None,
            },
            None => r is None,
        },
{
    let n: usize = s.len();
    let colon: usize = match rfind(s, ':') {
        Some(i) => i,
        None => return None,
    };
    let head: &[char] = slice_subrange(s, 0, colon);
    assert(head@ =~= s@.take(colon as int));
    if colon < 2 || head[0] != '[' || head[colon - 1] != ']' {
        return None;
    }
    let tail: &[char] = slice_subrange(s, colon + 1, n);
    assert(tail@ =~= s@.skip(colon + 1));
    let port: u32 = match parse_number(tail, 65_535) {
        Some(p) => p,
        None => return None,
    };
    let inner: &[char] = slice_subrange(head, 1, colon - 1);
    let pct: usize = match find(inner, '%') {
        Some(i) => i,
        None => return None,
    };
    let zone: &[char] = slice_subrange(inner, pct + 1, inner.len());
    assert(zone@ =~= inner@.skip(pct + 1));
    if parse_number(zone, 0xffff_ffff).is_none() {
        return None;
    }
    let addr: &[char] = slice_subrange(inner, 0, pct);
    assert(addr@ =~= inner@.take(pct as int));
    let text: String = string_of(addr);
    match parse_ip(text.as_str()) {
        Some(ip) => match ip {
            IpAddr::V6(o) => Some((IpAddr::V6(o), port as u16)),
            IpAddr::V4(o) => None,
        },
        None => None,
    }
}

/// Splits `host:port`, accepting domain names, `[v6]:port` and literal
/// addresses. A missing or bad port, an IPv6 address that is malformed or
/// stands without brackets, and an empty host are refused.
pub fn parse_host_port(s: &str) -> (r: Result<(Host, u16), HostPortError>)
    ensures
        match host_port(s@) {
            Ok((host, port)) => r matches Ok(v) && v.0@ == host && v.1 == port,
            Err(e) => r == Err::<(Host, u16), HostPortError>(e),
        },
{
    let chars: Vec<char> = chars_of(s);
    match parse_zoned(chars.as_slice()) {
        Some((ip, port)) => return Ok((Host::Ip(ip), port)),
        None => {},
    }
    let n: usize = chars.len();
    let colon: usize = match rfind(chars.as_slice(), ':') {
        Some(i) => i,
        None => return Err(HostPortError::MissingPort),
    };
    let tail: &[char] = slice_subrange(chars.as_slice(), colon + 1, n);
    assert(tail@ =~= s@.skip(colon + 1));
    let port: u16 = match parse_port(tail) {
        Some(p) => p,
        None => return Err(HostPortError::BadPort),
    };
    let host: &[char] = slice_subrange(chars.as_slice(), 0, colon);
    assert(host@ =~= s@.take(colon as int));
    if colon > 0 && host[0] == '[' {
        if colon < 2 || host[colon - 1] != ']' {
            return Err(HostPortError::UnmatchedBracket);
        }
        if colon == 2 {
            return Err(HostPortError::EmptyHost);
        }
        let inner: String = string_of(slice_subrange(host, 1, colon - 1));
        return match bracketed_host(parse_ip(inner.as_str())) {
            Ok(h) => Ok((h, port)),
            Err(e) => Err(e),
        };
    }
    if find(host, ':').is_some() {
        return Err(HostPortError::BareIpv6);
    }
    if colon == 0 {
        return Err(HostPortError::EmptyHost);
    }
    Ok((resolve_name(host), port))
}

// ---------------------------------------------------------------------------
// Authorities
// ---------------------------------------------------------------------------

/// Why a request authority is refused.
#[derive(Debug, Clone, Copy, PartialEq, Eq, Structural)]
pub enum AuthorityError {
    /// A bracketed address has no closing bracket, or something other than a
    /// port follows it.
    MalformedV6,
    /// The port behind a bracketed address is no number below 65536.
    BadV6Port,
    /// The port is no number below 65536.
    BadPort,
}

impl AuthorityError {
    /// The error in words; `shown` is the quoted form of the authority.
    pub open spec fn text(self, shown: Seq<char>) -> Seq<char> {
        match self {
            AuthorityError::MalformedV6 => "malformed v6 authority "@ + shown,
            AuthorityError::BadV6Port => "bad port in "@ + shown,
            AuthorityError::BadPort => "bad port in CONNECT target"@,
        }
    }

    /// The error in words; `shown` is the quoted form of the authority.
    pub fn describe(&self, shown: &str) -> (r: String)
        ensures
            r@ == self.text(shown@),
    {
        let mut out: String = String::new();
        match self {
            AuthorityError::MalformedV6 => {
                push_str(&mut out, "malformed v6 authority ");
                push_str(&mut out, shown);
            },
            AuthorityError::BadV6Port => {
                push_str(&mut out, "bad port in ");
                push_str(&mut out, shown);
            },
            AuthorityError::BadPort => push_str(&mut out, "bad port in CONNECT target"),
        }
        assert(out@ =~= self.text(shown@));
        out
    }

    /// The error in words, for the authority that was refused.
    pub fn message(&self, target: &str) -> (r: String)
        ensures
            r@ == self.text(debug_text(target@)),
    {
        let shown: String = quoted(target);
        self.describe(shown.as_str())
    }
}

/// The target of an authority `host[:port]`.
pub open spec fn authority(s: Seq<char>, default_port: u16) -> Result<AddrModel, AuthorityError> {
    if s.len() > 0 && s[0] == '[' {
        let rest: Seq<char> = s.skip(1);
        match first_index(rest, ']') {
            None => Err(AuthorityError::MalformedV6),
            Some(i) => {
                let host: HostModel = named_host(rest.take(i));
                let tail: Seq<char> = rest.skip(i + 1);
                if tail.len() == 0 {
                    Ok(AddrModel { host, port: default_port })
                } else if tail[0] != ':' {
                    Err(AuthorityError::MalformedV6)
                } else {
                    match port_text(tail.skip(1)) {
                        Some(port) => Ok(AddrModel { host, port }),
                        None => Err(AuthorityError::BadV6Port),
                    }
                }
            },
        }
    } else {
        match last_index(s, ':') {
            Some(i) => match port_text(s.skip(i + 1)) {
                Some(port) => Ok(AddrModel { host: named_host(s.take(i)), port }),
                None => Err(AuthorityError::BadPort),
            },
            None => Ok(AddrModel { host: named_host(s), port: default_port }),
        }
    }
}

/// An authority `name:port` stands for that name and that port, for every port
/// from 0 to 65535 and none beyond; without a port it has the default one.
pub proof fn law_authority_parses(name: Seq<char>, port: nat, default_port: u16)
    requires
        name.len() > 0,
        name[0] != '[',
        !name.contains(':'),
    ensures
        ({
            let host: HostModel = match ip_literal(name) {
                Some(o) => if o.len() == 4 {
                    HostModel::V4(o)
                } else {
                    HostModel::V6(o)
                },
                None => HostModel::Domain(lower(name)),
            };
            &&& authority(name, default_port) == Ok::<AddrModel, AuthorityError>(
                AddrModel { host, port: default_port },
            )
            &&& authority(name + seq![':'] + decimal_text(port), default_port) == if port <= 65_535 {
                Ok::<AddrModel, AuthorityError>(AddrModel { host, port: port as u16 })
            } else {
                Err::<AddrModel, AuthorityError>(AuthorityError::BadPort)
            }
        }),
{
    lemma_split_at_port(name, port);
    law_separator_found(name, ':', decimal_text(port));
}

/// An authority with brackets stands for what is in them and the port behind
/// them, or the default one; behind the brackets nothing but a port may stand.
pub proof fn law_bracketed_authority_parses(
    addr: Seq<char>,
    port: nat,
    default_port: u16,
    tail: Seq<char>,
)
    requires
        !addr.contains(']'),
    ensures
        ({
            let host: HostModel = match ip_literal(addr) {
                Some(o) => if o.len() == 4 {
                    HostModel::V4(o)
                } else {
                    HostModel::V6(o)
                },
                None => HostModel::Domain(lower(addr)),
            };
            let front: Seq<char> = seq!['['] + addr;
            &&& authority(front + seq![']'], default_port) == Ok::<AddrModel, AuthorityError>(
                AddrModel { host, port: default_port },
            )
            &&& authority(front + seq![']', ':'] + decimal_text(port), default_port) == if port
                <= 65_535 {
                Ok::<AddrModel, AuthorityError>(AddrModel { host, port: port as u16 })
            } else {
                Err::<AddrModel, AuthorityError>(AuthorityError::BadV6Port)
            }
            &&& authority(front, default_port) == Err::<AddrModel, AuthorityError>(
                AuthorityError::MalformedV6,
            )
            &&& tail.len() > 0 && tail[0] != ':' ==> authority(
                front + seq![']'] + tail,
                default_port,
            ) == Err::<AddrModel, AuthorityError>(AuthorityError::MalformedV6)
        }),
{
    let front: Seq<char> = seq!['['] + addr;
    let none: Seq<char> = Seq::empty();
    let behind: Seq<char> = seq![':'] + decimal_text(port);
    lemma_split_at_port(none, port);
    law_separator_found(addr, ']', none);
    law_separator_found(addr, ']', behind);
    law_separator_found(addr, ']', tail);
    assert((front + seq![']']).skip(1) =~= addr + seq![']'] + none);
    assert((front + seq![']', ':'] + decimal_text(port)).skip(1) =~= addr + seq![']'] + behind);
    assert(behind.skip(1) =~= decimal_text(port));
    assert(front.skip(1) =~= addr);
    assert((front + seq![']'] + tail).skip(1) =~= addr + seq![']'] + tail);
}

/// Parses an authority `host[:port]`; `default_port` stands in for a port that
/// is not there.
pub fn parse_target_authority(target: &str, default_port: u16) -> (r: Result<
    ProxyAddr,
    AuthorityError,
>)
    ensures
        match authority(target@, default_port) {
            Ok(a) => r matches Ok(v) && v@ == a,
            Err(e) => r == Err::<ProxyAddr, AuthorityError>(e),
        },
{
    let chars: Vec<char> = chars_of(target);
    parse_authority(chars.as_slice(), default_port)
}

/// [`parse_target_authority`] on characters.
pub fn parse_authority(s: &[char], default_port: u16) -> (r: Result<ProxyAddr, AuthorityError>)
    ensures
        match authority(s@, default_port) {
            Ok(a) => r matches Ok(v) && v@ == a,
            Err(e) => r == Err::<ProxyAddr, AuthorityError>(e),
        },
{
    let n: usize = s.len();
    if n > 0 && s[0] == '[' {
        let rest: &[char] = slice_subrange(s, 1, n);
        assert(rest@ =~= s@.skip(1));
        let i: usize = match find(rest, ']') {
            Some(i) => i,
            None => return Err(AuthorityError::MalformedV6),
        };
        let name: &[char] = slice_subrange(rest, 0, i);
        assert(name@ =~= rest@.take(i as int));
        let tail: &[char] = slice_subrange(rest, i + 1, n - 1);
        assert(tail@ =~= rest@.skip(i + 1));
        if tail.len() == 0 {
            return Ok(ProxyAddr { host: resolve_name(name), port: default_port });
        }
        if tail[0] != ':' {
            return Err(AuthorityError::MalformedV6);
        }
        let digits: &[char] = slice_subrange(tail, 1, tail.len());
        assert(digits@ =~= tail@.skip(1));
        return match parse_port(digits) {
            Some(port) => Ok(ProxyAddr { host: resolve_name(name), port }),
            None => Err(AuthorityError::BadV6Port),
        };
    }
    match rfind(s, ':') {
        Some(i) => {
            let digits: &[char] = slice_subrange(s, i + 1, n);
            assert(digits@ =~= s@.skip(i + 1));
            let name: &[char] = slice_subrange(s, 0, i);
            assert(name@ =~= s@.take(i as int));
            match parse_port(digits) {
                Some(port) => Ok(ProxyAddr { host: resolve_name(name), port }),
                None => Err(AuthorityError::BadPort),
            }
        },
        None => Ok(ProxyAddr { host: resolve_name(s), port: default_port }),
    }
}

} // verus!
