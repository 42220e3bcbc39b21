//! SOCKS5 inbound: no-auth negotiation and CONNECT, as decisions on the bytes
//! that were read.

use crate::addr::{
    all_name_bytes, ascii_chars, ascii_string, is_name, is_name_byte, law_wire_layout, octets16,
    octets4, port_of, AddrModel, Host, HostModel, IpAddr, ProxyAddr, ATYP_DOMAIN, ATYP_IPV4,
    ATYP_IPV6,
};
use crate::bytes::append;
use crate::error::{IoError, IoErrorKind};
use crate::stream::take_exact;
use crate::text::{chars_of, hex_text, is_utf8, lower, push_hex, push_str, string_of, to_lower};
use vstd::prelude::*;
use vstd::utf8::valid_utf8;

verus! {

/// The protocol version.
pub const VER: u8 = 0x05;

/// The method without authentication.
pub const METHOD_NO_AUTH: u8 = 0x00;

/// The answer that no offered method is acceptable.
pub const METHOD_NONE_ACCEPTABLE: u8 = 0xff;

/// The CONNECT command.
pub const CMD_CONNECT: u8 = 0x01;

/// Reply: the target is connected.
pub const REP_SUCCEEDED: u8 = 0x00;

/// Reply: general failure.
pub const REP_GENERAL: u8 = 0x01;

/// Reply: the command is not supported.
pub const REP_CMD_UNSUPPORTED: u8 = 0x07;

/// Reply: the address type is not supported.
pub const REP_ATYP_UNSUPPORTED: u8 = 0x08;

// ---------------------------------------------------------------------------
// Greeting
// ---------------------------------------------------------------------------

/// The complaint about a version byte.
pub open spec fn bad_version(v: u8) -> Seq<char> {
    "bad SOCKS version "@ + hex_text(v)
}

fn bad_version_message(v: u8) -> (r: String)
    ensures
        r@ == bad_version(v),
{
    let mut out: String = String::new();
    push_str(&mut out, "bad SOCKS version ");
    push_hex(&mut out, v);
    assert(out@ =~= bad_version(v));
    out
}

/// Checks the two bytes that a greeting starts with; gives the number of
/// method bytes that follow.
pub fn check_greeting(head: &[u8; 2]) -> (r: Result<usize, IoError>)
    ensures
        head@[0] == VER ==> r == Ok::<usize, IoError>(head@[1] as usize),
        head@[0] != VER ==> (r matches Err(e) && e.kind == IoErrorKind::InvalidData && e.message@
            == bad_version(head@[0])),
{
    if head[0] != VER {
        return Err(IoError { kind: IoErrorKind::InvalidData, message: bad_version_message(head[0]) });
    }
    Ok(head[1] as usize)
}

/// The answer to a greeting.
pub struct GreetingAnswer {
    /// The bytes to write.
    pub reply: [u8; 2],
    /// Why the session ends, where it does.
    pub error: Option<IoError>,
}

/// Answers the offered methods: only the one without authentication will do.
pub fn answer_greeting(methods: &[u8]) -> (r: GreetingAnswer)
    ensures
        methods@.contains(METHOD_NO_AUTH) ==> r.reply@ == seq![VER, METHOD_NO_AUTH] && r.error
            is None,
        !methods@.contains(METHOD_NO_AUTH) ==> r.reply@ == seq![VER, METHOD_NONE_ACCEPTABLE] && (
        r.error matches Some(e) && e.kind == IoErrorKind::InvalidData && e.message@
            == "client offered no acceptable auth method"@),
{
    let mut i: usize = 0;
    while i < methods.len()
        invariant
            i <= methods@.len(),
            forall|j: int| 0 <= j < i ==> #[trigger] methods@[j] != METHOD_NO_AUTH,
        decreases methods@.len() - i,
    {
        if methods[i] == METHOD_NO_AUTH {
            let reply: [u8; 2] = [VER, METHOD_NO_AUTH];
            assert(reply@ =~= seq![VER, METHOD_NO_AUTH]);
            assert(methods@.contains(METHOD_NO_AUTH)) by {
                assert(methods@[i as int] == METHOD_NO_AUTH);
            }
            return GreetingAnswer { reply, error: None };
        }
        i += 1;
    }
    let reply: [u8; 2] = [VER, METHOD_NONE_ACCEPTABLE];
    assert(reply@ =~= seq![VER, METHOD_NONE_ACCEPTABLE]);
    GreetingAnswer {
        reply,
        error: Some(
            IoError::new(IoErrorKind::InvalidData, "client offered no acceptable auth method"),
        ),
    }
}

// ---------------------------------------------------------------------------
// Request
// ---------------------------------------------------------------------------

/// Why the head of a request is refused.
#[derive(Debug, Clone, Copy, PartialEq, Eq, Structural)]
pub enum RequestRefusal {
    /// Another protocol version; there is no reply.
    BadVersion(u8),
    /// Another command than CONNECT.
    BadCommand(u8),
}

impl RequestRefusal {
    /// The refusal in words.
    pub open spec fn text(self) -> Seq<char> {
        match self {
            RequestRefusal::BadVersion(v) => bad_version(v),
            RequestRefusal::BadCommand(c) => "unsupported command "@ + hex_text(c),
        }
    }

    /// The refusal in words.
    pub fn message(&self) -> (r: String)
        ensures
            r@ == self.text(),
    {
        match self {
            RequestRefusal::BadVersion(v) => bad_version_message(*v),
            RequestRefusal::BadCommand(c) => {
                let mut out: String = String::new();
                push_str(&mut out, "unsupported command ");
                push_hex(&mut out, *c);
                assert(out@ =~= self.text());
                out
            },
        }
    }

    /// The reply code to send, where there is one.
    pub fn reply_code(&self) -> (r: Option<u8>)
        ensures
            r == match self {
                RequestRefusal::BadVersion(v) => None::<u8>,
                RequestRefusal::BadCommand(c) => Some(REP_CMD_UNSUPPORTED),
            },
    {
        match self {
            RequestRefusal::BadVersion(v) => None,
            RequestRefusal::BadCommand(c) => Some(REP_CMD_UNSUPPORTED),
        }
    }
}

/// Checks the four bytes that a request starts with; gives the address type.
pub fn check_request(head: &[u8; 4]) -> (r: Result<u8, RequestRefusal>)
    ensures
        r == if head@[0] != VER {
            Err::<u8, RequestRefusal>(RequestRefusal::BadVersion(head@[0]))
        } else if head@[1] != CMD_CONNECT {
            Err::<u8, RequestRefusal>(RequestRefusal::BadCommand(head@[1]))
        } else {
            Ok::<u8, RequestRefusal>(head@[3])
        },
{
    if head[0] != VER {
        return Err(RequestRefusal::BadVersion(head[0]));
    }
    if head[1] != CMD_CONNECT {
        return Err(RequestRefusal::BadCommand(head[1]));
    }
    Ok(head[3])
}

/// The bytes of a reply (bound address `0.0.0.0`, bound port 0).
pub fn reply(rep: u8) -> (r: [u8; 10])
    ensures
        r@ == reply_bytes(rep),
{
    let out: [u8; 10] = [VER, rep, 0, ATYP_IPV4, 0, 0, 0, 0, 0, 0];
    assert(out@ =~= reply_bytes(rep));
    out
}

/// The reply code for a failure to read the address: bad bytes are an
/// unsupported address, anything else a general failure.
pub fn address_failure_code(kind: IoErrorKind) -> (r: u8)
    ensures
        r == failure_code(kind),
{
    if kind == IoErrorKind::InvalidData {
        REP_ATYP_UNSUPPORTED
    } else {
        REP_GENERAL
    }
}

// ---------------------------------------------------------------------------
// Request address
// ---------------------------------------------------------------------------

/// What reading a request address off the front of a stream gives.
pub enum AddrOutcome {
    /// The stream ends inside the address.
    Cut,
    /// The bytes are refused, with this complaint.
    Bad(Seq<char>),
    /// The target, and how many stream bytes it has.
    Addr(AddrModel, int),
}

/// Adds the port behind the `used` bytes of a host.
pub open spec fn with_port(host: HostModel, s: Seq<u8>, used: int) -> AddrOutcome {
    if s.len() < used + 2 {
        AddrOutcome::Cut
    } else {
        AddrOutcome::Addr(
            AddrModel { host, port: port_of(s.subrange(used, used + 2)) },
            used + 2,
        )
    }
}

/// The host of the bytes of a domain name, or the complaint about them.
pub open spec fn name_host(name: Seq<u8>) -> Result<HostModel, Seq<char>> {
    if !valid_utf8(name) {
        Err("domain is not utf-8"@)
    } else if !is_name(name) {
        Err("invalid domain characters"@)
    } else {
        Ok(HostModel::Domain(lower(ascii_chars(name))))
    }
}

/// The request address of type `atyp` at the front of a stream.
pub open spec fn request_addr(atyp: u8, s: Seq<u8>) -> AddrOutcome {
    if atyp == ATYP_IPV4 {
        if s.len() < 4 {
            AddrOutcome::Cut
        } else {
            with_port(HostModel::V4(s.take(4)), s, 4)
        }
    } else if atyp == ATYP_IPV6 {
        if s.len() < 16 {
            AddrOutcome::Cut
        } else {
            with_port(HostModel::V6(s.take(16)), s, 16)
        }
    } else if atyp == ATYP_DOMAIN {
        if s.len() < 1 {
            AddrOutcome::Cut
        } else if s[0] == 0 {
            AddrOutcome::Bad("empty domain"@)
        } else if s.len() < 1 + s[0] {
            AddrOutcome::Cut
        } else {
            match name_host(s.subrange(1, 1 + s[0])) {
                Err(e) => AddrOutcome::Bad(e),
                Ok(host) => with_port(host, s, 1 + s[0]),
            }
        }
    } else {
        AddrOutcome::Bad("unsupported ATYP "@ + hex_text(atyp))
    }
}

/// What is left of a stream after reading a request address off its front:
/// nothing where it ends inside the address, else what follows the bytes that
/// were read.
pub open spec fn request_rest(atyp: u8, s: Seq<u8>) -> Seq<u8> {
    match request_addr(atyp, s) {
        AddrOutcome::Cut => Seq::empty(),
        AddrOutcome::Addr(a, used) => s.skip(used),
        AddrOutcome::Bad(what) => if atyp != ATYP_DOMAIN {
            s
        } else if s[0] == 0 {
            s.skip(1)
        } else {
            s.skip(1 + s[0])
        },
    }
}

/// Which part of an address is read next.
pub enum AddrState {
    /// Four octets.
    Ip4,
    /// Sixteen octets.
    Ip6,
    /// The length of a domain name.
    DomainLen,
    /// The bytes of a domain name.
    DomainName(u8),
    /// The two bytes of the port, for the host that was read.
    Port(Host),
}

impl AddrState {
    /// How many bytes the part has.
    pub open spec fn size(self) -> nat {
        match self {
            AddrState::Ip4 => 4,
            AddrState::Ip6 => 16,
            AddrState::DomainLen => 1,
            AddrState::DomainName(n) => n as nat,
            AddrState::Port(h) => 2,
        }
    }

    /// How many bytes the part has.
    pub fn need(&self) -> (r: usize)
        ensures
            r == self.size(),
    {
        match self {
            AddrState::Ip4 => 4,
            AddrState::Ip6 => 16,
            AddrState::DomainLen => 1,
            AddrState::DomainName(n) => *n as usize,
            AddrState::Port(h) => 2,
        }
    }
}

/// What to do next about an address.
pub enum AddrStep {
    /// Read this part and hand it to [`feed_addr`].
    Read(AddrState),
    /// The address is complete.
    Done(ProxyAddr),
    /// The address is refused.
    Fail(IoError),
}

/// A step that refuses bad bytes with this complaint.
pub open spec fn refuses(step: AddrStep, what: Seq<char>) -> bool {
    step matches AddrStep::Fail(e) && e.kind == IoErrorKind::InvalidData && e.message@ == what
}

/// The first step for an address of type `atyp`.
pub open spec fn begins_with(atyp: u8, step: AddrStep) -> bool {
    &&& atyp == ATYP_IPV4 ==> step == AddrStep::Read(AddrState::Ip4)
    &&& atyp == ATYP_IPV6 ==> step == AddrStep::Read(AddrState::Ip6)
    &&& atyp == ATYP_DOMAIN ==> step == AddrStep::Read(AddrState::DomainLen)
    &&& atyp != ATYP_IPV4 && atyp != ATYP_IPV6 && atyp != ATYP_DOMAIN ==> refuses(
        step,
        "unsupported ATYP "@ + hex_text(atyp),
    )
}

/// The step after the bytes of a part.
pub open spec fn fed(state: AddrState, bytes: Seq<u8>, step: AddrStep) -> bool {
    match state {
        AddrState::Ip4 => step matches AddrStep::Read(AddrState::Port(h)) && h@ == HostModel::V4(
            bytes,
        ),
        AddrState::Ip6 => step matches AddrStep::Read(AddrState::Port(h)) && h@ == HostModel::V6(
            bytes,
        ),
        AddrState::DomainLen => if bytes[0] == 0 {
            refuses(step, "empty domain"@)
        } else {
            step == AddrStep::Read(AddrState::DomainName(bytes[0]))
        },
        AddrState::DomainName(n) => match name_host(bytes) {
            Ok(host) => step matches AddrStep::Read(AddrState::Port(h)) && h@ == host,
            Err(e) => refuses(step, e),
        },
        AddrState::Port(host) => step matches AddrStep::Done(a) && a@ == (AddrModel {
            host: host@,
            port: port_of(bytes),
        }),
    }
}

/// A request address in the wire form of a target is read back as that target,
/// and exactly its bytes are used, whatever follows them. A domain name comes
/// back in lower case.
pub proof fn law_request_addr_reads_wire(a: AddrModel, rest: Seq<u8>)
    requires
        a.representable(),
    ensures
        request_addr(a.wire()[0], a.wire().skip(1) + rest) == AddrOutcome::Addr(
            AddrModel {
                host: match a.host {
                    HostModel::Domain(d) => HostModel::Domain(lower(d)),
                    _ => a.host,
                },
                port: a.port,
            },
            a.wire().len() - 1,
        ),
        request_rest(a.wire()[0], a.wire().skip(1) + rest) == rest,
{
    let w: Seq<u8> = a.wire();
    let s: Seq<u8> = w.skip(1) + rest;
    let n: int = w.len() - 1;
    law_wire_layout(a);
    assert(s.skip(n) =~= rest);
    assert(s[n - 2] == w[n - 1] && s[n - 1] == w[n]);
    match a.host {
        HostModel::V4(o) => {
            assert(s.take(4) =~= w.subrange(1, 5));
            assert(s.subrange(4, 6)[0] == s[4] && s.subrange(4, 6)[1] == s[5]);
        },
        HostModel::V6(o) => {
            assert(s.take(16) =~= w.subrange(1, 17));
            assert(s.subrange(16, 18)[0] == s[16] && s.subrange(16, 18)[1] == s[17]);
        },
        HostModel::Domain(d) => {
            let name: Seq<u8> = s.subrange(1, 1 + s[0]);
            assert(s[0] == w[1]);
            assert forall|i: int| 0 <= i < d.len() implies #[trigger] name[i] as u32 == d[i] as u32
                && is_name_byte(name[i]) by {
                assert(name[i] == w[2 + i]);
                assert('!' <= d[i] <= '~');
            }
            assert(ascii_chars(name) =~= d);
            lemma_name_is_utf8(name);
            let p: Seq<u8> = s.subrange(1 + s[0], 3 + s[0]);
            assert(p[0] == s[n - 2] && p[1] == s[n - 1]);
        },
    }
}

/// Whatever address is read, its port is the last two bytes that were used,
/// high byte first, and the host stands before them.
pub proof fn law_request_port(atyp: u8, s: Seq<u8>)
    ensures
        request_addr(atyp, s) matches AddrOutcome::Addr(a, used) ==> {
            &&& 2 <= used <= s.len()
            &&& a.port == s[used - 2] * 256 + s[used - 1]
            &&& atyp == 1 ==> used == 6 && a.host == HostModel::V4(s.take(4))
            &&& atyp == 4 ==> used == 18 && a.host == HostModel::V6(s.take(16))
            &&& atyp == 3 ==> used == s[0] + 3 && a.host is Domain
            &&& atyp == 1 || atyp == 3 || atyp == 4
        },
        atyp != 1 && atyp != 3 && atyp != 4 ==> request_addr(atyp, s) is Bad,
        atyp == 1 && s.len() >= 6 ==> request_addr(atyp, s) is Addr,
        atyp == 4 && s.len() >= 18 ==> request_addr(atyp, s) is Addr,
{
    if let AddrOutcome::Addr(a, used) = request_addr(atyp, s) {
        let p: Seq<u8> = s.subrange(used - 2, used);
        assert(p[0] == s[used - 2] && p[1] == s[used - 1]);
    }
}

/// Read part by part, the octets of an address and two bytes of port end in
/// that address and that port.
pub proof fn law_octets_and_port_are_read(
    octets: Seq<u8>,
    hi: u8,
    lo: u8,
    first: AddrStep,
    second: AddrStep,
    third: AddrStep,
)
    requires
        octets.len() == 4 || octets.len() == 16,
        begins_with(
            if octets.len() == 4 {
                1
            } else {
                4
            },
            first,
        ),
        first matches AddrStep::Read(state) ==> fed(state, octets, second),
        second matches AddrStep::Read(state) ==> fed(state, seq![hi, lo], third),
    ensures
        first matches AddrStep::Read(state) && state.size() == octets.len(),
        second matches AddrStep::Read(state) && state.size() == 2,
        third matches AddrStep::Done(a) && a@.port == hi * 256 + lo && a@.host == if octets.len()
            == 4 {
            HostModel::V4(octets)
        } else {
            HostModel::V6(octets)
        },
{
}

/// Read part by part, the length and the bytes of a name and two bytes of port
/// end in that name, in lower case, and that port.
pub proof fn law_name_and_port_are_read(
    name: Seq<u8>,
    hi: u8,
    lo: u8,
    first: AddrStep,
    second: AddrStep,
    third: AddrStep,
    fourth: AddrStep,
)
    requires
        1 <= name.len() <= 255,
        forall|i: int| 0 <= i < name.len() ==> 0x21 <= #[trigger] name[i] <= 0x7e,
        begins_with(3, first),
        first matches AddrStep::Read(state) ==> fed(state, seq![name.len() as u8], second),
        second matches AddrStep::Read(state) ==> fed(state, name, third),
        third matches AddrStep::Read(state) ==> fed(state, seq![hi, lo], fourth),
    ensures
        first matches AddrStep::Read(state) && state.size() == 1,
        second matches AddrStep::Read(state) && state.size() == name.len(),
        third matches AddrStep::Read(state) && state.size() == 2,
        fourth matches AddrStep::Done(a) && a@.port == hi * 256 + lo && a@.host
            == HostModel::Domain(lower(Seq::new(name.len(), |i: int| name[i] as char))),
{
    assert forall|i: int| 0 <= i < name.len() implies is_name_byte(#[trigger] name[i]) by {}
    lemma_name_is_utf8(name);
    assert(ascii_chars(name) =~= Seq::new(name.len(), |i: int| name[i] as char));
}

/// Name bytes are valid UTF-8.
proof fn lemma_name_is_utf8(name: Seq<u8>)
    requires
        is_name(name),
    ensures
        valid_utf8(name),
    decreases name.len(),
{
    if name.len() > 0 {
        assert(is_name_byte(name[0]));
        let rest: Seq<u8> = name.skip(1);
        assert forall|i: int| 0 <= i < rest.len() implies is_name_byte(#[trigger] rest[i]) by {
            assert(rest[i] == name[i + 1]);
        }
        lemma_name_is_utf8(rest);
    }
}

/// Starts reading an address of type `atyp`.
pub fn begin_addr(atyp: u8) -> (r: AddrStep)
    ensures
        begins_with(atyp, r),
{
    if atyp == ATYP_IPV4 {
        AddrStep::Read(AddrState::Ip4)
    } else if atyp == ATYP_IPV6 {
        AddrStep::Read(AddrState::Ip6)
    } else if atyp == ATYP_DOMAIN {
        AddrStep::Read(AddrState::DomainLen)
    } else {
        let mut what: String = String::new();
        push_str(&mut what, "unsupported ATYP ");
        push_hex(&mut what, atyp);
        assert(what@ =~= "unsupported ATYP "@ + hex_text(atyp));
        AddrStep::Fail(IoError { kind: IoErrorKind::InvalidData, message: what })
    }
}

/// Takes the bytes of the part that was to be read.
pub fn feed_addr(state: AddrState, bytes: &[u8]) -> (r: AddrStep)
    requires
        bytes@.len() == state.size(),
    ensures
        fed(state, bytes@, r),
        state matches AddrState::Port(host) ==> (r matches AddrStep::Done(a) && a.host@ == host@
            && a.port == bytes@[0] * 256 + bytes@[1]),
{
    match state {
        AddrState::Ip4 => {
            let octets: [u8; 4] = octets4(bytes, 0);
            assert(octets@ =~= bytes@);
            AddrStep::Read(AddrState::Port(Host::Ip(IpAddr::V4(octets))))
        },
        AddrState::Ip6 => {
            let octets: [u8; 16] = octets16(bytes, 0);
            assert(octets@ =~= bytes@);
            AddrStep::Read(AddrState::Port(Host::Ip(IpAddr::V6(octets))))
        },
        AddrState::DomainLen => {
            if bytes[0] == 0 {
                return AddrStep::Fail(IoError::new(IoErrorKind::InvalidData, "empty domain"));
            }
            AddrStep::Read(AddrState::DomainName(bytes[0]))
        },
        AddrState::DomainName(n) => {
            if !is_utf8(bytes) {
                return AddrStep::Fail(
                    IoError::new(IoErrorKind::InvalidData, "domain is not utf-8"),
                );
            }
            if !all_name_bytes(bytes) {
                return AddrStep::Fail(
                    IoError::new(IoErrorKind::InvalidData, "invalid domain characters"),
                );
            }
            let name: String = ascii_string(bytes);
            let chars: Vec<char> = chars_of(name.as_str());
            let small: Vec<char> = to_lower(chars.as_slice());
            AddrStep::Read(AddrState::Port(Host::Domain(string_of(small.as_slice()))))
        },
        AddrState::Port(host) => {
            let port: u16 = bytes[0] as u16 * 256 + bytes[1] as u16;
            AddrStep::Done(ProxyAddr { host, port })
        },
    }
}

/// Reads a request address off the front of bytes in memory.
pub fn read_addr(stream: &mut &[u8], atyp: u8) -> (r: Result<ProxyAddr, IoError>)
    ensures
        match request_addr(atyp, (*old(stream))@) {
            AddrOutcome::Addr(a, used) => r matches Ok(v) && v@ == a,
            AddrOutcome::Cut => r matches Err(e) && e.kind == IoErrorKind::UnexpectedEof
                && e.message@ == "failed to fill whole buffer"@,
            AddrOutcome::Bad(what) => r matches Err(e) && e.kind == IoErrorKind::InvalidData
                && e.message@ == what,
        },
        (*final(stream))@ == request_rest(atyp, (*old(stream))@),
{
    let ghost s: Seq<u8> = (*stream)@;
    let first: AddrState = match begin_addr(atyp) {
        AddrStep::Read(state) => state,
        AddrStep::Done(a) => return Ok(a),
        AddrStep::Fail(e) => return Err(e),
    };
    let len1: usize = first.need();
    let part1: &[u8] = match take_exact(stream, len1) {
        Ok(b) => b,
        Err(e) => return Err(e),
    };
    let mut next: AddrState = match feed_addr(first, part1) {
        AddrStep::Read(state) => state,
        AddrStep::Done(a) => return Ok(a),
        AddrStep::Fail(e) => return Err(e),
    };
    let ghost mut used: int = len1 as int;
    if atyp == ATYP_DOMAIN {
        let len2: usize = next.need();
        let part2: &[u8] = match take_exact(stream, len2) {
            Ok(b) => b,
            Err(e) => return Err(e),
        };
        proof {
            assert(part2@ =~= s.subrange(1, 1 + s[0]));
            used = 1 + len2;
            assert((*stream)@ =~= s.skip(used));
        }
        next = match feed_addr(next, part2) {
            AddrStep::Read(state) => state,
            AddrStep::Done(a) => return Ok(a),
            AddrStep::Fail(e) => return Err(e),
        };
    }
    let part3: &[u8] = match take_exact(stream, 2) {
        Ok(b) => b,
        Err(e) => return Err(e),
    };
    proof {
        assert(part3@ =~= s.subrange(used, used + 2));
        assert((*stream)@ =~= s.skip(used + 2));
    }
    match feed_addr(next, part3) {
        AddrStep::Done(a) => Ok(a),
        AddrStep::Read(state) => vstd::pervasive::unreached(),
        AddrStep::Fail(e) => Err(e),
    }
}

// ---------------------------------------------------------------------------
// The inbound session
// ---------------------------------------------------------------------------

/// Which part of the negotiation is read next.
pub enum SocksState {
    /// The two bytes that a greeting starts with.
    Greeting,
    /// The offered methods.
    Methods(u8),
    /// The four bytes that a request starts with.
    Request,
    /// A part of the request address.
    Address(AddrState),
}

impl SocksState {
    /// How many bytes the part has.
    pub open spec fn size(self) -> nat {
        match self {
            SocksState::Greeting => 2,
            SocksState::Methods(n) => n as nat,
            SocksState::Request => 4,
            SocksState::Address(a) => a.size(),
        }
    }

    /// How many bytes the part has.
    pub fn need(&self) -> (r: usize)
        ensures
            r == self.size(),
    {
        match self {
            SocksState::Greeting => 2,
            SocksState::Methods(n) => *n as usize,
            SocksState::Request => 4,
            SocksState::Address(a) => a.need(),
        }
    }

    /// The reply to send, best effort, when the part cannot be read: only a
    /// request that has begun its address is answered.
    pub fn read_failure_reply(&self, kind: IoErrorKind) -> (r: Option<[u8; 10]>)
        ensures
            self is Address ==> (r matches Some(b) && b@ == reply_bytes(failure_code(kind))),
            !(self is Address) ==> r is None,
    {
        match self {
            SocksState::Address(a) => Some(reply(address_failure_code(kind))),
            _ => None,
        }
    }
}

/// The reply code for a failure to read the address.
pub open spec fn failure_code(kind: IoErrorKind) -> u8 {
    if kind == IoErrorKind::InvalidData {
        REP_ATYP_UNSUPPORTED
    } else {
        REP_GENERAL
    }
}

/// The bytes of a reply.
pub open spec fn reply_bytes(rep: u8) -> Seq<u8> {
    seq![VER, rep, 0u8, ATYP_IPV4, 0u8, 0u8, 0u8, 0u8, 0u8, 0u8]
}

/// What an inbound session does next.
pub enum SocksStep {
    /// Write the bytes, then read this part and hand it to [`socks_step`].
    Read(Vec<u8>, SocksState),
    /// Connect to the target, and reply how that went.
    Connect(ProxyAddr),
    /// Write the bytes, best effort, and end with the error.
    Refuse(Vec<u8>, IoError),
}

/// A step that writes nothing and reads a part.
pub open spec fn reads(step: SocksStep, state: SocksState) -> bool {
    step matches SocksStep::Read(bytes, next) && bytes@.len() == 0 && next == state
}

/// A step that ends the session with some bytes and a complaint about bad
/// bytes.
pub open spec fn ends(step: SocksStep, bytes: Seq<u8>, what: Seq<char>) -> bool {
    step matches SocksStep::Refuse(b, e) && b@ == bytes && e.kind == IoErrorKind::InvalidData
        && e.message@ == what
}

/// The session step of an address step: complaints are answered as unsupported
/// addresses.
pub open spec fn follows(step: SocksStep, addr: AddrStep) -> bool {
    match addr {
        AddrStep::Read(state) => reads(step, SocksState::Address(state)),
        AddrStep::Done(a) => step == SocksStep::Connect(a),
        AddrStep::Fail(e) => step matches SocksStep::Refuse(b, f) && b@ == reply_bytes(
            failure_code(e.kind),
        ) && f == e,
    }
}

fn address_step(step: AddrStep) -> (r: SocksStep)
    ensures
        follows(r, step),
{
    match step {
        AddrStep::Read(state) => SocksStep::Read(Vec::new(), SocksState::Address(state)),
        AddrStep::Done(a) => SocksStep::Connect(a),
        AddrStep::Fail(e) => {
            let bytes: [u8; 10] = reply(address_failure_code(e.kind));
            SocksStep::Refuse(to_vec(bytes.as_slice()), e)
        },
    }
}

fn to_vec(bytes: &[u8]) -> (r: Vec<u8>)
    ensures
        r@ == bytes@,
{
    let mut out: Vec<u8> = Vec::new();
    append(&mut out, bytes);
    assert(out@ =~= bytes@);
    out
}

/// Takes the bytes of the part that was to be read, and says what to do next.
pub fn socks_step(state: SocksState, bytes: &[u8]) -> (r: SocksStep)
    requires
        bytes@.len() == state.size(),
    ensures
        match state {
            SocksState::Greeting => if bytes@[0] == VER {
                reads(r, SocksState::Methods(bytes@[1]))
            } else {
                ends(r, Seq::empty(), bad_version(bytes@[0]))
            },
            SocksState::Methods(n) => if bytes@.contains(METHOD_NO_AUTH) {
                r matches SocksStep::Read(out, next) && out@ == seq![VER, METHOD_NO_AUTH] && next
                    == SocksState::Request
            } else {
                ends(
                    r,
                    seq![VER, METHOD_NONE_ACCEPTABLE],
                    "client offered no acceptable auth method"@,
                )
            },
            SocksState::Request => if bytes@[0] != VER {
                ends(r, Seq::empty(), bad_version(bytes@[0]))
            } else if bytes@[1] != CMD_CONNECT {
                ends(
                    r,
                    reply_bytes(REP_CMD_UNSUPPORTED),
                    "unsupported command "@ + hex_text(bytes@[1]),
                )
            } else {
                exists|a: AddrStep| #[trigger] begins_with(bytes@[3], a) && follows(r, a)
            },
            SocksState::Address(part) => exists|a: AddrStep| #[trigger]
                fed(part, bytes@, a) && follows(r, a),
        },
{
    match state {
        SocksState::Greeting => {
            let head: [u8; 2] = [bytes[0], bytes[1]];
            match check_greeting(&head) {
                Ok(n) => SocksStep::Read(Vec::new(), SocksState::Methods(bytes[1])),
                Err(e) => SocksStep::Refuse(Vec::new(), e),
            }
        },
        SocksState::Methods(n) => {
            let answer: GreetingAnswer = answer_greeting(bytes);
            let out: Vec<u8> = to_vec(answer.reply.as_slice());
            match answer.error {
                None => SocksStep::Read(out, SocksState::Request),
                Some(e) => SocksStep::Refuse(out, e),
            }
        },
        SocksState::Request => {
            let head: [u8; 4] = [bytes[0], bytes[1], bytes[2], bytes[3]];
            match check_request(&head) {
                Ok(atyp) => {
                    let first: AddrStep = begin_addr(atyp);
                    assert(begins_with(bytes@[3], first));
                    address_step(first)
                },
                Err(refusal) => {
                    let e: IoError = IoError {
                        kind: IoErrorKind::InvalidData,
                        message: refusal.message(),
                    };
                    match refusal.reply_code() {
                        Some(code) => SocksStep::Refuse(to_vec(reply(code).as_slice()), e),
                        None => SocksStep::Refuse(Vec::new(), e),
                    }
                },
            }
        },
        SocksState::Address(part) => {
            let ghost before: AddrState = part;
            let next: AddrStep = feed_addr(part, bytes);
            assert(fed(before, bytes@, next));
            address_step(next)
        },
    }
}

/// A reply in bytes: version 5, the code, a reserved zero, and an IPv4 address
/// and port of zeros.
pub proof fn law_reply_layout(rep: u8)
    ensures
        reply_bytes(rep).len() == 10,
        reply_bytes(rep)[0] == 5,
        reply_bytes(rep)[1] == rep,
        reply_bytes(rep)[3] == 1,
        forall|i: int| 2 <= i < 10 && i != 3 ==> #[trigger] reply_bytes(rep)[i] == 0,
        forall|kind: IoErrorKind| #[trigger]
            failure_code(kind) == if kind == IoErrorKind::InvalidData {
                8u8
            } else {
                1u8
            },
{
}

/// How an address is read: by its type, four octets for 1, sixteen for 4, and for
/// 3 a length byte and so many bytes of a name; any other type is refused, as are
/// an empty name and one with a blank, a control byte or a byte beyond ASCII.
pub proof fn law_address_steps(
    atyp: u8,
    step: AddrStep,
    host: Host,
    n: u8,
    bytes: Seq<u8>,
    i: int,
)
    ensures
        AddrState::Ip4.size() == 4,
        AddrState::Ip6.size() == 16,
        AddrState::DomainLen.size() == 1,
        AddrState::DomainName(n).size() == n,
        AddrState::Port(host).size() == 2,
        begins_with(1, step) ==> step == AddrStep::Read(AddrState::Ip4),
        begins_with(3, step) ==> step == AddrStep::Read(AddrState::DomainLen),
        begins_with(4, step) ==> step == AddrStep::Read(AddrState::Ip6),
        begins_with(atyp, step) && atyp != 1 && atyp != 3 && atyp != 4 ==> (step matches
            AddrStep::Fail(e) && e.kind == IoErrorKind::InvalidData),
        fed(AddrState::DomainLen, bytes, step) && bytes[0] == 0 ==> (step matches AddrStep::Fail(e)
            && e.kind == IoErrorKind::InvalidData),
        fed(AddrState::DomainLen, bytes, step) && bytes[0] != 0 ==> step == AddrStep::Read(
            AddrState::DomainName(bytes[0]),
        ),
        fed(AddrState::DomainName(n), bytes, step) && 0 <= i < bytes.len() && !(0x21 <= bytes[i]
            <= 0x7e) ==> (step matches AddrStep::Fail(e) && e.kind == IoErrorKind::InvalidData),
{
    if 0 <= i < bytes.len() && !is_name_byte(bytes[i]) {
        assert(!is_name(bytes));
    }
}

/// What a session writes on the way: nothing while an address is read, and for a
/// refused one a reply with code 8, or 1 where it could not be read; the complete
/// address is what it connects to.
pub proof fn law_session_follows_address(
    step: SocksStep,
    state: AddrState,
    a: ProxyAddr,
    e: IoError,
)
    ensures
        follows(step, AddrStep::Read(state)) ==> (step matches SocksStep::Read(out, next)
            && out@.len() == 0 && next == SocksState::Address(state)),
        follows(step, AddrStep::Done(a)) ==> step == SocksStep::Connect(a),
        follows(step, AddrStep::Fail(e)) ==> (step matches SocksStep::Refuse(out, f) && f == e
            && out@.len() == 10 && out@[0] == 5 && out@[1] == if e.kind
            == IoErrorKind::InvalidData {
            8u8
        } else {
            1u8
        }),
        SocksState::Greeting.size() == 2,
        SocksState::Request.size() == 4,
        SocksState::Address(state).size() == state.size(),
{
}

/// The numbers that the session goes by.
pub proof fn law_protocol_numbers()
    ensures
        seq![VER, METHOD_NO_AUTH] == seq![5u8, 0u8],
        seq![VER, METHOD_NONE_ACCEPTABLE] == seq![5u8, 0xffu8],
        CMD_CONNECT == 1,
        REP_SUCCEEDED == 0,
        REP_GENERAL == 1,
        REP_CMD_UNSUPPORTED == 7,
        REP_ATYP_UNSUPPORTED == 8,
{
}

} // verus!
