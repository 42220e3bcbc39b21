//! Proxy target addresses in SOCKS5 wire format, shared by the client (request
//! origin) and the server (request consumer).

use crate::bytes::{append, be_value, lemma_be_bytes_of_value, lemma_be_value_bound, pow256};
use crate::text::{decimal_text, push_decimal, push_str};
use vstd::arithmetic::power2::pow2;
use vstd::prelude::*;
use vstd::slice::slice_subrange;
use vstd::utf8::encode_utf8;

verus! {

/// Address type byte for an IPv4 host.
pub const ATYP_IPV4: u8 = 0x01;

/// Address type byte for a domain name.
pub const ATYP_DOMAIN: u8 = 0x03;

/// Address type byte for an IPv6 host.
pub const ATYP_IPV6: u8 = 0x04;

// ---------------------------------------------------------------------------
// Address text
// ---------------------------------------------------------------------------

/// The text of an IPv6 address, without brackets.
pub uninterp spec fn ipv6_text(octets: Seq<u8>) -> Seq<char>;

/// The octets of an IP address literal: four for IPv4, sixteen for IPv6.
pub uninterp spec fn ip_literal(text: Seq<char>) -> Option<Seq<u8>>;

/// The octets and the prefix length of a network in CIDR notation.
pub uninterp spec fn cidr_literal(text: Seq<char>) -> Option<(Seq<u8>, u8)>;

/// `to_string` of the standard library's IPv6 address type, reached through
/// `ipnet::Ipv6Net`, which hands the address out: the text is a function of the
/// octets.
#[verifier::external_body]
pub(crate) fn format_ipv6(octets: &[u8; 16]) -> (r: String)
    ensures
        r@ == ipv6_text(octets@),
{
    ipnet::Ipv6Net::new_assert((*octets).into(), 128).addr().to_string()
}

/// `str::parse` to the standard library's IP address type, as
/// `ipnet::IpNet::new` takes it: the outcome is a function of the text, and an
/// address has four or sixteen octets.
#[verifier::external_body]
pub(crate) fn parse_ip(text: &str) -> (r: Option<IpAddr>)
    ensures
        match ip_literal(text@) {
            Some(octets) => r matches Some(ip) && ip.octets() == octets,
            None => r is None,
        },
{
    match ipnet::IpNet::new(text.parse().ok()?, 0).ok()? {
        ipnet::IpNet::V4(net) => Some(IpAddr::V4(net.addr().octets())),
        ipnet::IpNet::V6(net) => Some(IpAddr::V6(net.addr().octets())),
    }
}

/// `str::parse` to `ipnet::IpNet`: the outcome is a function of the text, and
/// the prefix is no longer than the address. Its error has one text.
#[verifier::external_body]
pub(crate) fn parse_cidr(text: &str) -> (r: Result<Cidr, String>)
    ensures
        match cidr_literal(text@) {
            Some((octets, prefix)) => r matches Ok(net) && net.addr.octets() == octets
                && net.prefix == prefix && net.wf(),
            None => r matches Err(e) && e@ == "invalid IP address syntax"@,
        },
{
    match text.parse::<ipnet::IpNet>().map_err(|e| e.to_string())? {
        ipnet::IpNet::V4(n) => Ok(Cidr { addr: IpAddr::V4(n.addr().octets()), prefix: n.prefix_len() }),
        ipnet::IpNet::V6(n) => Ok(Cidr { addr: IpAddr::V6(n.addr().octets()), prefix: n.prefix_len() }),
    }
}

/// `ipnet::Ipv4Net::contains` of an address: the address agrees with the
/// network in its leading `prefix` bits.
#[verifier::external_body]
pub(crate) fn ipv4_net_contains(net: &[u8; 4], prefix: u8, ip: &[u8; 4]) -> (r: bool)
    requires
        prefix <= 32,
    ensures
        r == same_prefix(net@, ip@, prefix as nat),
{
    let host = ipnet::Ipv4Net::new_assert((*ip).into(), 32);
    ipnet::Ipv4Net::new_assert((*net).into(), prefix).contains(&host.addr())
}

/// `ipnet::Ipv6Net::contains` of an address: the address agrees with the
/// network in its leading `prefix` bits.
#[verifier::external_body]
pub(crate) fn ipv6_net_contains(net: &[u8; 16], prefix: u8, ip: &[u8; 16]) -> (r: bool)
    requires
        prefix <= 128,
    ensures
        r == same_prefix(net@, ip@, prefix as nat),
{
    let host = ipnet::Ipv6Net::new_assert((*ip).into(), 128);
    ipnet::Ipv6Net::new_assert((*net).into(), prefix).contains(&host.addr())
}

/// Two addresses of one family agree in their leading `prefix` bits.
pub open spec fn same_prefix(a: Seq<u8>, b: Seq<u8>, prefix: nat) -> bool {
    let step: nat = pow2((8 * a.len() - prefix) as nat);
    be_value(a) / step == be_value(b) / step
}

// ---------------------------------------------------------------------------
// Hosts
// ---------------------------------------------------------------------------

/// A literal IP address.
#[derive(Debug, Clone, Copy, PartialEq, Eq, Hash)]
pub enum IpAddr {
    /// An IPv4 address.
    V4([u8; 4]),
    /// An IPv6 address.
    V6([u8; 16]),
}

impl IpAddr {
    /// The bytes of the address: four or sixteen.
    pub open spec fn octets(self) -> Seq<u8> {
        match self {
            IpAddr::V4(o) => o@,
            IpAddr::V6(o) => o@,
        }
    }
}

/// A network: an address and how many of its leading bits count.
#[derive(Debug, Clone, Copy, PartialEq, Eq, Hash)]
pub struct Cidr {
    /// An address of the network.
    pub addr: IpAddr,
    /// How many leading bits its addresses share.
    pub prefix: u8,
}

impl Cidr {
    /// The prefix is no longer than the address.
    pub open spec fn wf(self) -> bool {
        self.prefix <= 8 * self.addr.octets().len()
    }

    /// An address belongs to the network: same family, same leading bits.
    pub open spec fn holds(self, ip: IpAddr) -> bool {
        self.addr.octets().len() == ip.octets().len() && same_prefix(
            self.addr.octets(),
            ip.octets(),
            self.prefix as nat,
        )
    }

    /// Whether an address belongs to the network.
    pub fn contains(&self, ip: &IpAddr) -> (r: bool)
        requires
            self.wf(),
        ensures
            r == self.holds(*ip),
    {
        match (&self.addr, ip) {
            (IpAddr::V4(net), IpAddr::V4(ip)) => ipv4_net_contains(net, self.prefix, ip),
            (IpAddr::V6(net), IpAddr::V6(ip)) => ipv6_net_contains(net, self.prefix, ip),
            _ => false,
        }
    }
}

/// What a host is.
pub enum HostModel {
    /// A domain name.
    Domain(Seq<char>),
    /// The octets of an IPv4 address.
    V4(Seq<u8>),
    /// The octets of an IPv6 address.
    V6(Seq<u8>),
}

/// The host that the octets of an address stand for.
pub open spec fn host_of_octets(octets: Seq<u8>) -> HostModel {
    if octets.len() == 4 {
        HostModel::V4(octets)
    } else {
        HostModel::V6(octets)
    }
}

/// Target host: either a domain name (resolved remotely) or a literal IP.
#[derive(Debug, Clone, PartialEq, Eq, Hash)]
pub enum Host {
    /// Domain name, original case preserved; matching normalizes.
    Domain(String),
    /// Literal IP address.
    Ip(IpAddr),
}

impl View for Host {
    type V = HostModel;

    open spec fn view(&self) -> HostModel {
        match self {
            Host::Domain(d) => HostModel::Domain(d@),
            Host::Ip(IpAddr::V4(o)) => HostModel::V4(o@),
            Host::Ip(IpAddr::V6(o)) => HostModel::V6(o@),
        }
    }
}

/// The dotted text of an IPv4 address.
pub open spec fn ipv4_text(o: Seq<u8>) -> Seq<char> {
    decimal_text(o[0] as nat) + "."@ + decimal_text(o[1] as nat) + "."@ + decimal_text(o[2] as nat)
        + "."@ + decimal_text(o[3] as nat)
}

impl HostModel {
    /// The host as text, an IPv6 address in brackets.
    pub open spec fn text(self) -> Seq<char> {
        match self {
            HostModel::Domain(d) => d,
            HostModel::V4(o) => ipv4_text(o),
            HostModel::V6(o) => "["@ + ipv6_text(o) + "]"@,
        }
    }
}

/// A text in brackets.
pub fn bracketed(text: &str) -> (r: String)
    ensures
        r@ == "["@ + text@ + "]"@,
{
    let mut out: String = String::new();
    push_str(&mut out, "[");
    push_str(&mut out, text);
    push_str(&mut out, "]");
    assert(out@ =~= "["@ + text@ + "]"@);
    out
}

impl Host {
    /// The host as a display string (`[v6]` bracketed for use in `host:port`).
    pub fn to_display(&self) -> (r: String)
        ensures
            r@ == self@.text(),
    {
        let mut out: String = String::new();
        match self {
            Host::Domain(d) => push_str(&mut out, d.as_str()),
            Host::Ip(IpAddr::V4(o)) => {
                push_decimal(&mut out, o[0] as u128);
                push_str(&mut out, ".");
                push_decimal(&mut out, o[1] as u128);
                push_str(&mut out, ".");
                push_decimal(&mut out, o[2] as u128);
                push_str(&mut out, ".");
                push_decimal(&mut out, o[3] as u128);
            },
            Host::Ip(IpAddr::V6(o)) => {
                let text: String = format_ipv6(o);
                return bracketed(text.as_str());
            },
        }
        assert(out@ =~= self@.text());
        out
    }
}

// ---------------------------------------------------------------------------
// Targets
// ---------------------------------------------------------------------------

/// What a target is: a host and a port.
pub struct AddrModel {
    /// The host.
    pub host: HostModel,
    /// The TCP port.
    pub port: u16,
}

/// A proxy request target: host and TCP port.
#[derive(Debug, Clone, PartialEq, Eq, Hash)]
pub struct ProxyAddr {
    /// Target host.
    pub host: Host,
    /// Target port, network byte order on the wire.
    pub port: u16,
}

impl View for ProxyAddr {
    type V = AddrModel;

    open spec fn view(&self) -> AddrModel {
        AddrModel { host: self.host@, port: self.port }
    }
}

/// Errors while decoding a [`ProxyAddr`] frame.
#[derive(Debug, Clone, Copy, PartialEq, Eq, Structural)]
pub enum AddrError {
    /// The frame is structurally invalid (bad type, length or port bytes).
    Malformed,
}

impl AddrError {
    /// The error in words.
    pub fn message(&self) -> (r: &'static str)
        ensures
            r@ == "malformed proxy address frame"@,
    {
        "malformed proxy address frame"
    }
}

/// The two big-endian bytes of a port.
pub open spec fn port_bytes(port: u16) -> Seq<u8> {
    seq![(port / 256) as u8, (port % 256) as u8]
}

/// The port that two bytes stand for.
pub open spec fn port_of(s: Seq<u8>) -> u16 {
    (s[0] * 256 + s[1]) as u16
}

/// At most the first 255 bytes.
pub open spec fn capped(s: Seq<u8>) -> Seq<u8> {
    if s.len() > 255 {
        s.take(255)
    } else {
        s
    }
}

/// A byte that may stand in a domain name: printable and no space.
pub open spec fn is_name_byte(b: u8) -> bool {
    0x21 <= b <= 0x7e
}

/// Every byte may stand in a domain name.
pub open spec fn is_name(s: Seq<u8>) -> bool {
    forall|i: int| 0 <= i < s.len() ==> is_name_byte(#[trigger] s[i])
}

/// The characters of ASCII bytes.
pub open spec fn ascii_chars(s: Seq<u8>) -> Seq<char> {
    Seq::new(s.len(), |i: int| s[i] as char)
}

impl AddrModel {
    /// The wire form: type, address and port. A domain name is capped at 255
    /// bytes.
    pub open spec fn wire(self) -> Seq<u8> {
        let head: Seq<u8> = match self.host {
            HostModel::Domain(d) => seq![ATYP_DOMAIN, capped(encode_utf8(d)).len() as u8] + capped(
                encode_utf8(d),
            ),
            HostModel::V4(o) => seq![ATYP_IPV4] + o,
            HostModel::V6(o) => seq![ATYP_IPV6] + o,
        };
        head + port_bytes(self.port)
    }

    /// The target that a frame stands for, which has to be consumed exactly.
    pub open spec fn parsed(buf: Seq<u8>) -> Option<AddrModel> {
        if buf.len() == 7 && buf[0] == ATYP_IPV4 {
            Some(AddrModel { host: HostModel::V4(buf.subrange(1, 5)), port: port_of(buf.skip(5)) })
        } else if buf.len() == 19 && buf[0] == ATYP_IPV6 {
            Some(
                AddrModel { host: HostModel::V6(buf.subrange(1, 17)), port: port_of(buf.skip(17)) },
            )
        } else if buf.len() >= 5 && buf[0] == ATYP_DOMAIN && buf.len() == buf[1] + 4 && is_name(
            buf.subrange(2, buf.len() - 2),
        ) {
            Some(
                AddrModel {
                    host: HostModel::Domain(ascii_chars(buf.subrange(2, buf.len() - 2))),
                    port: port_of(buf.skip(buf.len() - 2)),
                },
            )
        } else {
            None
        }
    }

    /// A target that its wire form keeps: address octets of the right number,
    /// or a domain name of name characters, one to 255 of them.
    pub open spec fn representable(self) -> bool {
        match self.host {
            HostModel::Domain(d) => 1 <= d.len() <= 255 && name_chars(d),
            HostModel::V4(o) => o.len() == 4,
            HostModel::V6(o) => o.len() == 16,
        }
    }
}

/// Every character may stand in a domain name.
pub open spec fn name_chars(d: Seq<char>) -> bool {
    forall|i: int| 0 <= i < d.len() ==> '!' <= #[trigger] d[i] <= '~'
}

/// Decoding the wire form of a target gives the target back.
pub proof fn law_addr_roundtrip(a: AddrModel)
    requires
        a.representable(),
    ensures
        AddrModel::parsed(a.wire()) == Some(a),
{
    let w: Seq<u8> = a.wire();
    let p: Seq<u8> = port_bytes(a.port);
    assert(port_of(p) == a.port);
    match a.host {
        HostModel::Domain(d) => {
            lemma_name_bytes(d);
            let b: Seq<u8> = encode_utf8(d);
            assert(w.subrange(2, w.len() - 2) =~= b);
            assert(w.skip(w.len() - 2) =~= p);
            assert(ascii_chars(b) =~= d);
        },
        HostModel::V4(o) => {
            assert(w.subrange(1, 5) =~= o);
            assert(w.skip(5) =~= p);
        },
        HostModel::V6(o) => {
            assert(w.subrange(1, 17) =~= o);
            assert(w.skip(17) =~= p);
        },
    }
}

/// The wire form in bytes: one byte for the kind of host (1 for IPv4, 4 for
/// IPv6, 3 for a domain name), the octets, or the length and the bytes of the
/// name, and then the port, high byte first.
pub proof fn law_wire_layout(a: AddrModel)
    requires
        a.representable(),
    ensures
        ({
            let w: Seq<u8> = a.wire();
            let n: int = w.len() as int;
            &&& w[n - 2] * 256 + w[n - 1] == a.port
            &&& a.host matches HostModel::V4(o) ==> n == 7 && w[0] == 1 && w.subrange(1, 5) == o
            &&& a.host matches HostModel::V6(o) ==> n == 19 && w[0] == 4 && w.subrange(1, 17) == o
            &&& a.host matches HostModel::Domain(d) ==> n == d.len() + 4 && w[0] == 3 && w[1]
                == d.len() && forall|i: int|
                0 <= i < d.len() ==> #[trigger] w[2 + i] as u32 == d[i] as u32
        }),
{
    let w: Seq<u8> = a.wire();
    match a.host {
        HostModel::Domain(d) => {
            lemma_name_bytes(d);
            let b: Seq<u8> = encode_utf8(d);
            assert forall|i: int| 0 <= i < d.len() implies #[trigger] w[2 + i] as u32
                == d[i] as u32 by {
                assert(w[2 + i] == b[i]);
                assert(ascii_chars(b)[i] == d[i]);
            }
        },
        HostModel::V4(o) => {
            assert(w.subrange(1, 5) =~= o);
        },
        HostModel::V6(o) => {
            assert(w.subrange(1, 17) =~= o);
        },
    }
}

/// Which frames are accepted, byte by byte: those with the octets of an
/// address, or with a name of one to 255 printable characters other than the
/// space, and two bytes of port, and no others.
pub proof fn law_accepted_frames(buf: Seq<u8>)
    ensures
        AddrModel::parsed(buf) is Some <==> (buf.len() == 7 && buf[0] == 1) || (buf.len() == 19
            && buf[0] == 4) || (buf.len() >= 5 && buf[0] == 3 && buf.len() == buf[1] + 4 && forall|
            i: int,
        |
            2 <= i < buf.len() - 2 ==> 0x21 <= #[trigger] buf[i] <= 0x7e),
        AddrModel::parsed(buf) matches Some(a) ==> {
            let n: int = buf.len() as int;
            &&& a.port == buf[n - 2] * 256 + buf[n - 1]
            &&& buf[0] == 1 ==> a.host == HostModel::V4(buf.subrange(1, 5))
            &&& buf[0] == 4 ==> a.host == HostModel::V6(buf.subrange(1, 17))
            &&& buf[0] == 3 ==> (a.host matches HostModel::Domain(d) && d.len() == n - 4 && forall|
                i: int,
            |
                0 <= i < d.len() ==> #[trigger] d[i] as u32 == buf[2 + i] as u32)
        },
{
    if buf.len() >= 5 && buf[0] == 3 && buf.len() == buf[1] + 4 {
        let name: Seq<u8> = buf.subrange(2, buf.len() - 2);
        assert forall|i: int| 2 <= i < buf.len() - 2 && is_name(name) implies 0x21 <= #[trigger] buf[i]
            <= 0x7e by {
            assert(is_name_byte(name[i - 2]));
        }
    }
}

/// Networks agree in their leading bits: no bits are no condition, all bits
/// mean equality, and agreement in more bits is agreement in fewer.
pub proof fn law_prefixes(a: Seq<u8>, b: Seq<u8>, p: nat, q: nat)
    requires
        a.len() == b.len(),
        q <= p <= 8 * a.len(),
    ensures
        same_prefix(a, b, 0),
        same_prefix(a, b, 8 * a.len()) <==> a == b,
        same_prefix(a, b, p) ==> same_prefix(a, b, q),
{
    let w: nat = 8 * a.len();
    lemma_be_value_bound(a);
    lemma_be_value_bound(b);
    lemma_pow256_is_pow2(a.len());
    vstd::arithmetic::power2::lemma_pow2_pos(w);
    vstd::arithmetic::div_mod::lemma_basic_div(be_value(a) as int, pow2(w) as int);
    vstd::arithmetic::div_mod::lemma_basic_div(be_value(b) as int, pow2(w) as int);
    vstd::arithmetic::power2::lemma2_to64();
    let all: nat = pow2((8 * a.len() - w) as nat);
    assert(all == 1);
    assert(be_value(a) / all == be_value(a) && be_value(b) / all == be_value(b)) by (
    nonlinear_arith)
        requires
            all == 1,
    ;
    if same_prefix(a, b, w) {
        lemma_be_bytes_of_value(a);
        lemma_be_bytes_of_value(b);
    }
    let fine: nat = pow2((w - p) as nat);
    let more: nat = pow2((p - q) as nat);
    vstd::arithmetic::power2::lemma_pow2_adds((w - p) as nat, (p - q) as nat);
    vstd::arithmetic::power2::lemma_pow2_pos((w - p) as nat);
    vstd::arithmetic::power2::lemma_pow2_pos((p - q) as nat);
    vstd::arithmetic::div_mod::lemma_div_denominator(be_value(a) as int, fine as int, more as int);
    vstd::arithmetic::div_mod::lemma_div_denominator(be_value(b) as int, fine as int, more as int);
}

proof fn lemma_pow256_is_pow2(n: nat)
    ensures
        pow256(n) == pow2(8 * n),
    decreases n,
{
    vstd::arithmetic::power2::lemma2_to64();
    if n > 0 {
        lemma_pow256_is_pow2((n - 1) as nat);
        vstd::arithmetic::power2::lemma_pow2_adds(8, 8 * (n - 1) as nat);
    }
}

/// A prefix of whole bytes is a condition on those bytes, and on no others.
pub proof fn law_whole_byte_prefix(a: Seq<u8>, b: Seq<u8>, k: nat)
    requires
        a.len() == b.len(),
        k <= a.len(),
    ensures
        same_prefix(a, b, 8 * k) <==> a.take(k as int) == b.take(k as int),
{
    lemma_leading_value(a, k);
    lemma_leading_value(b, k);
    lemma_pow256_is_pow2((a.len() - k) as nat);
    lemma_be_bytes_of_value(a.take(k as int));
    lemma_be_bytes_of_value(b.take(k as int));
}

proof fn lemma_leading_value(a: Seq<u8>, k: nat)
    requires
        k <= a.len(),
    ensures
        be_value(a) / pow256((a.len() - k) as nat) == be_value(a.take(k as int)),
    decreases a.len() - k,
{
    if k == a.len() {
        assert(a.take(k as int) =~= a);
        assert(pow256(0) == 1);
        vstd::arithmetic::div_mod::lemma_div_basics(be_value(a) as int);
    } else {
        let init: Seq<u8> = a.drop_last();
        let p: nat = pow256((init.len() - k) as nat);
        lemma_leading_value(init, k);
        assert(init.take(k as int) =~= a.take(k as int));
        crate::bytes::lemma_pow256_positive((init.len() - k) as nat);
        vstd::arithmetic::div_mod::lemma_div_denominator(be_value(a) as int, 256, p as int);
        assert(be_value(a) / 256 == be_value(init));
    }
}

/// A network holds its own address, and none of the other family; without a
/// prefix it holds every address of its family.
pub proof fn law_network_families(net: Cidr, a: [u8; 4], b: [u8; 16])
    ensures
        net.holds(net.addr),
        net.addr is V4 ==> !net.holds(IpAddr::V6(b)),
        net.addr is V6 ==> !net.holds(IpAddr::V4(a)),
        net.addr is V4 && net.prefix == 0 ==> net.holds(IpAddr::V4(a)),
        net.addr is V6 && net.prefix == 0 ==> net.holds(IpAddr::V6(b)),
        net.wf() <==> match net.addr {
            IpAddr::V4(o) => net.prefix <= 32,
            IpAddr::V6(o) => net.prefix <= 128,
        },
{
    match net.addr {
        IpAddr::V4(o) => law_prefixes(o@, a@, 0, 0),
        IpAddr::V6(o) => law_prefixes(o@, b@, 0, 0),
    }
}

/// An IPv4 address is shown as its four octets in decimal, with dots between
/// them, and an IPv6 address in brackets.
pub proof fn law_address_texts(o: Seq<u8>, d: Seq<char>)
    ensures
        HostModel::V4(o).text() == decimal_text(o[0] as nat) + seq!['.'] + decimal_text(
            o[1] as nat,
        ) + seq!['.'] + decimal_text(o[2] as nat) + seq!['.'] + decimal_text(o[3] as nat),
        HostModel::V6(o).text() == seq!['['] + ipv6_text(o) + seq![']'],
        HostModel::Domain(d).text() == d,
{
    reveal_strlit(".");
    reveal_strlit("[");
    reveal_strlit("]");
    assert("."@ =~= seq!['.']);
    assert("["@ =~= seq!['[']);
    assert("]"@ =~= seq![']']);
}

/// A domain name of more than 255 name characters decodes to its first 255.
pub proof fn law_long_domain_truncates(d: Seq<char>, port: u16)
    requires
        d.len() > 255,
        name_chars(d),
    ensures
        AddrModel::parsed((AddrModel { host: HostModel::Domain(d), port }).wire()) == Some(
            AddrModel { host: HostModel::Domain(d.take(255)), port },
        ),
{
    let w: Seq<u8> = (AddrModel { host: HostModel::Domain(d), port }).wire();
    lemma_name_bytes(d);
    let b: Seq<u8> = encode_utf8(d).take(255);
    assert(w.subrange(2, w.len() - 2) =~= b);
    assert(w.skip(w.len() - 2) =~= port_bytes(port));
    assert(ascii_chars(b) =~= d.take(255));
}

/// Every accepted frame is the wire form of the target it decodes to.
pub proof fn law_addr_frames_canonical(buf: Seq<u8>)
    ensures
        AddrModel::parsed(buf) matches Some(a) ==> a.representable() && a.wire() == buf,
{
    if AddrModel::parsed(buf) is Some {
        let a: AddrModel = AddrModel::parsed(buf)->Some_0;
        match a.host {
            HostModel::Domain(d) => {
                let b: Seq<u8> = buf.subrange(2, buf.len() - 2);
                assert(name_chars(d)) by {
                    assert forall|i: int| 0 <= i < d.len() implies '!' <= #[trigger] d[i] <= '~' by {
                        assert(is_name_byte(b[i]));
                    }
                }
                lemma_name_bytes(d);
                assert(encode_utf8(d) =~= b);
                assert(a.wire() =~= buf);
            },
            HostModel::V4(o) => {
                assert(a.wire() =~= buf);
            },
            HostModel::V6(o) => {
                assert(a.wire() =~= buf);
            },
        }
    }
}

proof fn lemma_name_bytes(d: Seq<char>)
    requires
        name_chars(d),
    ensures
        encode_utf8(d) == Seq::new(d.len(), |i: int| d[i] as u8),
        is_name(encode_utf8(d)),
{
    assert(vstd::utf8::is_ascii_chars(d));
    vstd::utf8::is_ascii_chars_encode_utf8(d);
    assert(encode_utf8(d) =~= Seq::new(d.len(), |i: int| d[i] as u8));
}

/// The string of ASCII bytes.
pub fn ascii_string(s: &[u8]) -> (r: String)
    requires
        is_name(s@),
    ensures
        r@ == ascii_chars(s@),
{
    let mut out: String = String::new();
    let mut i: usize = 0;
    while i < s.len()
        invariant
            i <= s@.len(),
            out@ == ascii_chars(s@).take(i as int),
        decreases s@.len() - i,
    {
        out.push(s[i] as char);
        i += 1;
        assert(out@ =~= ascii_chars(s@).take(i as int));
    }
    assert(out@ =~= ascii_chars(s@));
    out
}

/// Whether every byte may stand in a domain name.
pub fn all_name_bytes(s: &[u8]) -> (r: bool)
    ensures
        r == is_name(s@),
{
    let mut i: usize = 0;
    while i < s.len()
        invariant
            i <= s@.len(),
            forall|j: int| 0 <= j < i ==> is_name_byte(#[trigger] s@[j]),
        decreases s@.len() - i,
    {
        if s[i] < 0x21 || s[i] > 0x7e {
            assert(!is_name_byte(s@[i as int]));
            return false;
        }
        i += 1;
    }
    true
}

/// Four bytes of `buf` from `pos` on.
pub fn octets4(buf: &[u8], pos: usize) -> (r: [u8; 4])
    requires
        pos + 4 <= buf@.len(),
    ensures
        r@ == buf@.subrange(pos as int, pos + 4),
{
    let n: usize = buf.len();
    let r: [u8; 4] = [buf[pos], buf[pos + 1], buf[pos + 2], buf[pos + 3]];
    assert(r@ =~= buf@.subrange(pos as int, pos + 4));
    r
}

/// Sixteen bytes of `buf` from `pos` on.
pub fn octets16(buf: &[u8], pos: usize) -> (r: [u8; 16])
    requires
        pos + 16 <= buf@.len(),
    ensures
        r@ == buf@.subrange(pos as int, pos + 16),
{
    let n: usize = buf.len();
    let mut out: [u8; 16] = [0u8; 16];
    let mut i: usize = 0;
    while i < 16
        invariant
            i <= 16,
            n == buf@.len(),
            pos + 16 <= n,
            forall|j: int| 0 <= j < i ==> #[trigger] out@[j] == buf@[pos + j],
        decreases 16 - i,
    {
        out[i] = buf[pos + i];
        i += 1;
    }
    assert(out@ =~= buf@.subrange(pos as int, pos + 16));
    out
}

impl ProxyAddr {
    /// Appends the encoding `[ATYP][addr][port BE16]`.
    pub fn encode_into(&self, out: &mut Vec<u8>)
        ensures
            final(out)@ == old(out)@ + self@.wire(),
    {
        let ghost before: Seq<u8> = out@;
        match &self.host {
            Host::Domain(d) => {
                let bytes: &[u8] = d.as_str().as_bytes();
                let len: usize = if bytes.len() > 255 { 255 } else { bytes.len() };
                out.push(ATYP_DOMAIN);
                out.push(len as u8);
                let kept: &[u8] = slice_subrange(bytes, 0, len);
                assert(kept@ =~= capped(bytes@));
                append(out, kept);
            },
            Host::Ip(IpAddr::V4(o)) => {
                out.push(ATYP_IPV4);
                append(out, o.as_slice());
            },
            Host::Ip(IpAddr::V6(o)) => {
                out.push(ATYP_IPV6);
                append(out, o.as_slice());
            },
        }
        out.push((self.port / 256) as u8);
        out.push((self.port % 256) as u8);
        assert(out@ =~= before + self@.wire());
    }

    /// Encodes into a fresh buffer.
    pub fn encode(&self) -> (r: Vec<u8>)
        ensures
            r@ == self@.wire(),
    {
        let mut out: Vec<u8> = Vec::new();
        self.encode_into(&mut out);
        assert(out@ =~= self@.wire());
        out
    }

    /// Decodes a frame that must be consumed exactly (no trailing bytes).
    pub fn decode(buf: &[u8]) -> (r: Result<ProxyAddr, AddrError>)
        ensures
            match AddrModel::parsed(buf@) {
                Some(a) => r matches Ok(v) && v@ == a,
                None => r == Err::<ProxyAddr, AddrError>(AddrError::Malformed),
            },
    {
        let n: usize = buf.len();
        if n == 0 {
            return Err(AddrError::Malformed);
        }
        let (host, end): (Host, usize) = if buf[0] == ATYP_IPV4 {
            if n < 5 {
                return Err(AddrError::Malformed);
            }
            (Host::Ip(IpAddr::V4(octets4(buf, 1))), 5)
        } else if buf[0] == ATYP_IPV6 {
            if n < 17 {
                return Err(AddrError::Malformed);
            }
            (Host::Ip(IpAddr::V6(octets16(buf, 1))), 17)
        } else if buf[0] == ATYP_DOMAIN {
            if n < 2 {
                return Err(AddrError::Malformed);
            }
            let len: usize = buf[1] as usize;
            if n - 2 < len || len == 0 {
                return Err(AddrError::Malformed);
            }
            let name: &[u8] = slice_subrange(buf, 2, 2 + len);
            if !all_name_bytes(name) {
                proof {
                    if n == len + 4 {
                        assert(name@ =~= buf@.subrange(2, buf@.len() - 2));
                    }
                }
                return Err(AddrError::Malformed);
            }
            (Host::Domain(ascii_string(name)), 2 + len)
        } else {
            return Err(AddrError::Malformed);
        };
        if n - end != 2 {
            return Err(AddrError::Malformed);
        }
        let port: u16 = buf[end] as u16 * 256 + buf[end + 1] as u16;
        let addr: ProxyAddr = ProxyAddr { host, port };
        proof {
            assert(buf@.skip(end as int) =~= seq![buf@[end as int], buf@[end + 1]]);
        }
        Ok(addr)
    }

    /// The target as `host:port`.
    pub fn to_display(&self) -> (r: String)
        ensures
            r@ == self@.host.text() + ":"@ + decimal_text(self.port as nat),
    {
        let mut out: String = self.host.to_display();
        push_str(&mut out, ":");
        push_decimal(&mut out, self.port as u128);
        out
    }
}

} // verus!
