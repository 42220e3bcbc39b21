//! Addresses, rules, inbound protocols, pump decisions and configuration.

use nextppp::addr::{
    AddrError, Host, IpAddr, ProxyAddr, ATYP_DOMAIN, ATYP_IPV4, ATYP_IPV6,
};
use nextppp::endpoint::{bracketed_host, parse_host_port, parse_target_authority, AuthorityError, HostPortError};
use nextppp::error::{IoError, IoErrorKind};
use nextppp::fmt::{fmt_bytes, fmt_duration};
use nextppp::http::{
    answer, answer_code, feed_head, initial_bytes, parse_plain_target, parse_request, response,
    HeadStep, HttpError, HttpOutcome,
};
use nextppp::proto::{reply_accepted, FRAME_DATA, FRAME_EOF, STATUS_OK, STATUS_REFUSED};
use nextppp::pump::{
    accept_exhausted, classify_core, classify_io, connect_step, down_step, is_clean_close,
    is_routine_core, is_routine_io, up_step, Cause, ConnectStep, DownStep, PumpEnd, PumpStats,
    UpStep,
};
use nextppp::rule::{Policy, RuleSet};
use nextppp::service::{
    admits, bypass_list, closed_before_request, connect_reply, drain_step, server_step,
    server_traffic, session_base, session_id_for, CloseLevel, DrainStep, ServerAction, ServerEvent, ServerState, SessionIds,
    DRAIN_TIMEOUT_SECS,
};
use nextppp::settings::{
    default_connect_timeout, default_handshake_timeout, ClientConfig, ClientRuntime,
    ObfuscationConfig, ServerConfig, ServerRuntime, ServerSection, StartError,
};
use nextppp::socks5::{
    address_failure_code, answer_greeting, check_greeting, check_request, read_addr, reply,
    socks_step, RequestRefusal, SocksState, SocksStep, REP_ATYP_UNSUPPORTED, REP_GENERAL, REP_SUCCEEDED,
};
use nextppp::{Error, Method, ObfuscationKey};
use serde::de::{MapAccess, Visitor};
use serde::{Deserialize, Deserializer};
use std::collections::HashMap;
use std::time::{Duration, Instant};

// ---------------------------------------------------------------------------
// Addresses
// ---------------------------------------------------------------------------

const V4_LOCALHOST: IpAddr = IpAddr::V4([127, 0, 0, 1]);
const V6_LOCALHOST: IpAddr = IpAddr::V6([0, 0, 0, 0, 0, 0, 0, 0, 0, 0, 0, 0, 0, 0, 0, 1]);

fn roundtrip(addr: &ProxyAddr) {
    assert_eq!(ProxyAddr::decode(&addr.encode()).unwrap(), *addr);
}

#[test]
fn roundtrip_all_atyps() {
    roundtrip(&ProxyAddr {
        host: Host::Domain(String::from("example.com")),
        port: 443,
    });
    roundtrip(&ProxyAddr {
        host: Host::Ip(V4_LOCALHOST),
        port: 8080,
    });
    roundtrip(&ProxyAddr {
        host: Host::Ip(V6_LOCALHOST),
        port: 65535,
    });
}

#[test]
fn domain_length_prefix_is_exact() {
    let addr = ProxyAddr {
        host: Host::Domain(String::from("a.io")),
        port: 1,
    };
    let wire = addr.encode();
    assert_eq!(wire[0], ATYP_DOMAIN);
    assert_eq!(wire[1], 4);
    assert_eq!(wire.len(), 1 + 1 + 4 + 2);
}

#[test]
fn rejects_malformed_frames() {
    assert_eq!(ProxyAddr::decode(&[]), Err(AddrError::Malformed));
    assert_eq!(
        ProxyAddr::decode(&[0x02, 1, 2, 3, 4, 0, 80]),
        Err(AddrError::Malformed)
    );
    assert_eq!(
        ProxyAddr::decode(&[ATYP_IPV4, 1, 2, 3, 0, 80]),
        Err(AddrError::Malformed)
    );
    assert_eq!(
        ProxyAddr::decode(&[ATYP_IPV4, 1, 2, 3, 4, 0, 80, 0]),
        Err(AddrError::Malformed)
    );
    assert_eq!(
        ProxyAddr::decode(&[ATYP_DOMAIN, 9, b'a', b'.', b'i', b'o', 0, 80]),
        Err(AddrError::Malformed)
    );
    assert_eq!(
        ProxyAddr::decode(&[ATYP_DOMAIN, 0, 0, 80]),
        Err(AddrError::Malformed)
    );
    let mut v6 = vec![ATYP_IPV6];
    v6.extend_from_slice(&[0u8; 16]);
    assert_eq!(ProxyAddr::decode(&v6), Err(AddrError::Malformed));
    assert_eq!(
        ProxyAddr::decode(&[ATYP_DOMAIN, 2, b'a', b' ', 0, 80]),
        Err(AddrError::Malformed)
    );
    assert_eq!(AddrError::Malformed.message(), "malformed proxy address frame");
}

#[test]
fn long_domain_truncates_safely() {
    let long = String::from("a").repeat(300);
    let addr = ProxyAddr {
        host: Host::Domain(long),
        port: 443,
    };
    let wire = addr.encode();
    let decoded = ProxyAddr::decode(&wire).unwrap();
    match decoded.host {
        Host::Domain(d) => assert_eq!(d.len(), 255),
        other @ Host::Ip(_) => panic!("expected domain, got {other:?}"),
    }
}

#[test]
fn wire_bytes_are_canonical() {
    let wire = [ATYP_IPV4, 10, 0, 0, 7, 0x1f, 0x90];
    let addr = ProxyAddr::decode(&wire).unwrap();
    assert_eq!(addr.host, Host::Ip(IpAddr::V4([10, 0, 0, 7])));
    assert_eq!(addr.port, 8080);
    let mut out = vec![9u8];
    addr.encode_into(&mut out);
    assert_eq!(out[1..], wire);
}

#[test]
fn hosts_display() {
    assert_eq!(Host::Domain(String::from("A.io")).to_display(), "A.io");
    assert_eq!(Host::Ip(IpAddr::V4([192, 168, 0, 10])).to_display(), "192.168.0.10");
    assert_eq!(Host::Ip(V6_LOCALHOST).to_display(), "[::1]");
    let mut octets = [0u8; 16];
    octets[..4].copy_from_slice(&[0x20, 0x01, 0x0d, 0xb8]);
    octets[15] = 1;
    let addr = ProxyAddr { host: Host::Ip(IpAddr::V6(octets)), port: 443 };
    assert_eq!(addr.to_display(), "[2001:db8::1]:443");
}

#[test]
fn parse_host_port_forms() {
    let (Host::Ip(ip), 80) = parse_host_port("1.2.3.4:80").unwrap() else {
        panic!("v4 literal")
    };
    assert_eq!(Host::Ip(ip).to_display(), "1.2.3.4");
    let (Host::Ip(ip), 443) = parse_host_port("[2001:db8::1]:443").unwrap() else {
        panic!("bracketed v6")
    };
    assert_eq!(Host::Ip(ip).to_display(), "[2001:db8::1]");
    let (Host::Domain(d), 8080) = parse_host_port("Example.COM:8080").unwrap() else {
        panic!("domain")
    };
    assert_eq!(d, "example.com");
}

#[test]
fn parse_host_port_rejects_bad_forms() {
    assert!(parse_host_port("2001:db8::1").is_err());
    assert!(parse_host_port("2001:db8::1:8080").is_err());
    assert!(parse_host_port("[2001:db8::1").is_err());
    assert!(parse_host_port("example.com").is_err());
    assert!(parse_host_port("example.com:http").is_err());
    assert!(parse_host_port(":80").is_err());
    assert_eq!(parse_host_port("x").unwrap_err(), HostPortError::MissingPort);
    assert_eq!(parse_host_port("x:65536").unwrap_err(), HostPortError::BadPort);
    assert_eq!(parse_host_port("[x:1").unwrap_err(), HostPortError::UnmatchedBracket);
    assert_eq!(parse_host_port("a:b:1").unwrap_err(), HostPortError::BareIpv6);
    assert_eq!(parse_host_port("[]:1").unwrap_err(), HostPortError::EmptyHost);
}

#[test]
fn refusals_are_described() {
    let text = |s: &str| parse_host_port(s).unwrap_err().message(s);
    assert_eq!(text("a\tb"), "missing port in \"a\\tb\"");
    assert_eq!(text("h:x y"), "bad port \"x y\"");
    assert_eq!(text("[::1:80"), "unmatched '[' in \"[::1:80\"");
    assert_eq!(text("a:b:1"), "bare IPv6 address \"a:b:1\" must use the [addr]:port form");
    assert_eq!(text(":80"), "empty host in \":80\"");
    let text = |s: &str| parse_target_authority(s, 1).unwrap_err().message(s);
    assert_eq!(text("[::1"), "malformed v6 authority \"[::1\"");
    assert_eq!(text("[::1]:x"), "bad port in \"[::1]:x\"");
    assert_eq!(text("a:x"), "bad port in CONNECT target");
}

#[test]
fn socket_address_literals() {
    let v6 = |head: [u8; 2], tail: [u8; 6]| {
        let mut o = [0u8; 16];
        o[..2].copy_from_slice(&head);
        o[10..].copy_from_slice(&tail);
        IpAddr::V6(o)
    };
    for (text, ip, want) in [
        ("1.2.3.4:80", IpAddr::V4([1, 2, 3, 4]), 80),
        ("1.2.3.4:00080", IpAddr::V4([1, 2, 3, 4]), 80),
        ("[::1]:443", V6_LOCALHOST, 443),
        ("[fe80::1%5]:80", v6([0xfe, 0x80], [0, 0, 0, 0, 0, 1]), 80),
        ("[fe80::1%4294967295]:80", v6([0xfe, 0x80], [0, 0, 0, 0, 0, 1]), 80),
        ("[::ffff:1.2.3.4]:1", v6([0, 0], [0xff, 0xff, 1, 2, 3, 4]), 1),
        ("[1.2.3.4]:1", IpAddr::V4([1, 2, 3, 4]), 1),
        ("0.0.0.0:0", IpAddr::V4([0, 0, 0, 0]), 0),
    ] {
        let (host, port) = parse_host_port(text).unwrap();
        assert_eq!(host, Host::Ip(ip), "{text}");
        assert_eq!(port, want);
    }
    // Only an address may stand in brackets, and only a number is a zone.
    for text in [
        "[::zz]:80",
        "[example.com]:80",
        "[fe80::1%eth0]:80",
        "[fe80::1%4294967296]:80",
    ] {
        let e = parse_host_port(text).unwrap_err();
        assert_eq!(e, HostPortError::MalformedIpv6, "{text}");
        assert_eq!(e.message(text), format!("malformed IPv6 address in {text:?}"));
    }
    assert_eq!(bracketed_host(None), Err(HostPortError::MalformedIpv6));
    assert_eq!(bracketed_host(Some(V6_LOCALHOST)), Ok(Host::Ip(V6_LOCALHOST)));
    assert_eq!(parse_host_port("h:+80").unwrap().1, 80);
}

fn authority(s: &str, default_port: u16) -> ProxyAddr {
    parse_target_authority(s, default_port).unwrap()
}

#[test]
fn authority_default_ports() {
    assert_eq!(authority("example.com", 443).port, 443);
    assert_eq!(authority("example.com:8080", 443).port, 8080);
    assert_eq!(authority("[::1]", 443).port, 443);
    assert_eq!(authority("[::1]:8443", 443).port, 8443);
    assert_eq!(authority("127.0.0.1", 80).port, 80);
    assert_eq!(authority("127.0.0.1:3128", 80).port, 3128);
    assert_eq!(authority("127.0.0.1:3128", 80).host, Host::Ip(V4_LOCALHOST));
    assert_eq!(authority("[::1]", 443).host, Host::Ip(V6_LOCALHOST));
}

#[test]
fn authority_rejects_bad_ports() {
    assert!(parse_target_authority("[::1]:abc", 443).is_err());
    assert!(parse_target_authority("[::1]garbage", 443).is_err());
    assert!(parse_target_authority("example.com:", 443).is_err());
    assert!(parse_target_authority("example.com:notaport", 443).is_err());
    assert_eq!(
        parse_target_authority("[::1]:abc", 443),
        Err(AuthorityError::BadV6Port)
    );
    assert_eq!(parse_target_authority("[::1", 443), Err(AuthorityError::MalformedV6));
    assert_eq!(parse_target_authority("a:x", 443), Err(AuthorityError::BadPort));
}

#[test]
fn plain_target_defaults_to_80() {
    let http = parse_plain_target("http://example.com/path", "").unwrap();
    assert_eq!(http.port, 80);
    assert_eq!(http.host, Host::Domain(String::from("example.com")));
    let https = parse_plain_target("https://example.com/path", "").unwrap();
    assert_eq!(https.port, 443);
    let origin =
        parse_plain_target("/x", "GET /x HTTP/1.1\r\nHost: example.com\r\n\r\n").unwrap();
    assert_eq!(origin.port, 80);
    let origin_port =
        parse_plain_target("/x", "GET /x HTTP/1.1\r\nHost: example.com:8080\r\n\r\n").unwrap();
    assert_eq!(origin_port.port, 8080);
}

#[test]
fn plain_target_non_ascii_host_header_does_not_panic() {
    assert!(parse_plain_target("/x", "GET /x HTTP/1.1\r\nH\u{f6}st: example.com\r\n\r\n").is_err());
    let addr = parse_plain_target(
        "/x",
        "GET /x HTTP/1.1\r\nX-\u{dc}ser: 1\r\nHost: example.com\r\n\r\n",
    )
    .unwrap();
    assert_eq!(addr.port, 80);
    assert_eq!(addr.host, Host::Domain(String::from("example.com")));
}

#[test]
fn plain_target_without_host_header_fails() {
    assert!(parse_plain_target("/x", "GET /x HTTP/1.1\r\n\r\n").is_err());
    assert_eq!(
        parse_plain_target("/x", "GET /x HTTP/1.1\r\n\r\n"),
        Err(HttpError::NoHostHeader)
    );
}

#[test]
fn request_heads_parse() {
    let r = parse_request(b"connect Example.com:8443 HTTP/1.1\r\n\r\n").unwrap();
    assert!(r.connect);
    assert_eq!(r.addr.host, Host::Domain(String::from("example.com")));
    assert_eq!(r.addr.port, 8443);
    let r = parse_request(b"GET / HTTP/1.1\r\nhOsT: [::1]:81\xff\r\n\r\n");
    assert!(matches!(r, Err(HttpError::Authority(AuthorityError::BadV6Port))));
    let r = parse_request(b"GET / HTTP/1.1\r\nX: \xff\r\nHost:  a.b \r\n\r\n").unwrap();
    assert!(!r.connect);
    assert_eq!(r.addr.to_display(), "a.b:80");
    assert!(matches!(parse_request(b"GET\r\n\r\n"), Err(HttpError::BadRequestLine)));
    assert!(matches!(parse_request(b" \t \r\n\r\n"), Err(HttpError::BadRequestLine)));
}

#[test]
fn heads_are_gathered() {
    let mut buf = Vec::new();
    assert!(matches!(feed_head(&mut buf, b"GET / HTTP/1.1\r\n\r"), HeadStep::More));
    match feed_head(&mut buf, b"\nbody\r\n\r\n") {
        HeadStep::Complete(extra) => assert_eq!(extra, b"body\r\n\r\n"),
        _ => panic!("the head is complete"),
    }
    assert_eq!(buf, b"GET / HTTP/1.1\r\n\r\n");
    match feed_head(&mut buf, b"") {
        HeadStep::Fail(e) => {
            assert_eq!(e.kind, IoErrorKind::UnexpectedEof);
            assert_eq!(e.message, "connection closed before request head completed");
        }
        _ => panic!("the stream has ended"),
    }
    let mut buf = Vec::new();
    assert!(matches!(feed_head(&mut buf, &[b'x'; 16_384]), HeadStep::More));
    match feed_head(&mut buf, b"y") {
        HeadStep::Fail(e) => {
            assert_eq!(e.kind, IoErrorKind::InvalidData);
            assert_eq!(e.message, "request head too large");
        }
        _ => panic!("the head is too large"),
    }
}

#[test]
fn answers_and_forwarded_bytes() {
    assert_eq!(
        response(403, "Forbidden"),
        "HTTP/1.1 403 Forbidden\r\nContent-Length: 0\r\nConnection: close\r\n\r\n"
    );
    assert_eq!(initial_bytes(true, b"head", b"extra"), b"extra");
    assert_eq!(initial_bytes(false, b"head", b"extra"), b"headextra");
}

// ---------------------------------------------------------------------------
// Rules
// ---------------------------------------------------------------------------

fn ruleset(specs: &[&str], final_policy: Policy) -> RuleSet {
    let owned: Vec<String> = specs.iter().map(ToString::to_string).collect();
    RuleSet::parse(&owned, final_policy).unwrap()
}

fn domain(s: &str) -> Host {
    Host::Domain(String::from(s))
}

#[test]
fn suffix_matches_self_and_subdomains_only() {
    let rs = ruleset(&["domain-suffix:google.com,proxy"], Policy::Direct);
    assert_eq!(rs.decide(&domain("google.com")), Policy::Proxy);
    assert_eq!(rs.decide(&domain("WWW.Google.COM")), Policy::Proxy);
    assert_eq!(rs.decide(&domain("mail.google.com.")), Policy::Proxy);
    assert_eq!(rs.decide(&domain("notgoogle.com")), Policy::Direct);
    assert_eq!(rs.decide(&domain("google.com.evil.io")), Policy::Direct);
}

#[test]
fn exact_and_keyword_rules() {
    let rs = ruleset(&["domain:a.io,block", "domain-keyword:ads,direct"], Policy::Proxy);
    assert_eq!(rs.decide(&domain("a.io")), Policy::Block);
    assert_eq!(rs.decide(&domain("sub.a.io")), Policy::Proxy);
    assert_eq!(rs.decide(&domain("ads.example.com")), Policy::Direct);
    assert_eq!(rs.decide(&domain("xADSx.com")), Policy::Direct);
}

#[test]
fn cidr_rules_match_ips_only() {
    let rs = ruleset(
        &["ip-cidr:10.0.0.0/8,direct", "ip-cidr:fe80::/10,block"],
        Policy::Proxy,
    );
    assert_eq!(rs.decide(&Host::Ip(IpAddr::V4([10, 1, 2, 3]))), Policy::Direct);
    let mut fe80 = [0u8; 16];
    fe80[0] = 0xfe;
    fe80[1] = 0x80;
    fe80[15] = 1;
    assert_eq!(rs.decide(&Host::Ip(IpAddr::V6(fe80))), Policy::Block);
    assert_eq!(rs.decide(&domain("10.0.0.1.com")), Policy::Proxy);
    // Just outside of each network.
    assert_eq!(rs.decide(&Host::Ip(IpAddr::V4([11, 0, 0, 0]))), Policy::Proxy);
    fe80[1] = 0xc0;
    assert_eq!(rs.decide(&Host::Ip(IpAddr::V6(fe80))), Policy::Proxy);
}

#[test]
fn host_bits_of_a_network_do_not_count() {
    let rs = ruleset(&["ip-cidr: 10.1.2.3/9 ,block", "ip-cidr:0.0.0.0/0,direct"], Policy::Proxy);
    assert_eq!(rs.decide(&Host::Ip(IpAddr::V4([10, 127, 0, 0]))), Policy::Block);
    assert_eq!(rs.decide(&Host::Ip(IpAddr::V4([10, 128, 0, 0]))), Policy::Direct);
    assert_eq!(rs.decide(&Host::Ip(V6_LOCALHOST)), Policy::Proxy);
}

#[test]
fn first_match_wins_and_final_applies() {
    let rs = ruleset(&["domain-suffix:cn,direct", "domain:x.cn,block"], Policy::Proxy);
    assert_eq!(rs.decide(&domain("x.cn")), Policy::Direct);
    assert_eq!(rs.decide(&domain("unmatched.org")), Policy::Proxy);
    assert_eq!(rs.final_policy(), Policy::Proxy);
}

#[test]
fn parse_errors_are_actionable() {
    let owned = vec![String::from("domain-suffix:google.com")];
    assert!(RuleSet::parse(&owned, Policy::Proxy).unwrap_err().contains("#0"));

    let owned = vec![String::from("domain-suffix:google.com,teleport")];
    assert!(RuleSet::parse(&owned, Policy::Proxy)
        .unwrap_err()
        .contains("unknown policy"));

    let owned = vec![String::from("geoip:cn,direct")];
    assert!(RuleSet::parse(&owned, Policy::Proxy)
        .unwrap_err()
        .contains("unknown rule type"));

    let owned = vec![String::from("ip-cidr:10.0.0.0/33,direct")];
    assert!(RuleSet::parse(&owned, Policy::Proxy)
        .unwrap_err()
        .contains("invalid cidr"));
}

#[test]
fn parse_error_texts_are_exact() {
    let err = |specs: &[&str]| {
        let owned: Vec<String> = specs.iter().map(ToString::to_string).collect();
        RuleSet::parse(&owned, Policy::Proxy).unwrap_err()
    };
    assert_eq!(err(&[" x\ty "]), "rule #0 \"x\\ty\": missing \",policy\" suffix");
    assert_eq!(
        err(&["domain:a,proxy", "domain:b, Proxy"]),
        "rule #1 \"domain:b, Proxy\": unknown policy: \"Proxy\" (expected proxy|direct|block)"
    );
    assert_eq!(err(&["domain:,proxy"]), "rule #0 \"domain:,proxy\": empty domain");
    assert_eq!(err(&["domain:.. ,proxy"]), "rule #0 \"domain:.. ,proxy\": empty domain");
    assert_eq!(
        err(&["domain:a,proxy", "domain-suffix: ,block", "domain:,proxy"]),
        "rule #1 \"domain-suffix: ,block\": empty domain"
    );
    assert_eq!(
        err(&["domain-keyword:A_b,proxy"]),
        "rule #0 \"domain-keyword:A_b,proxy\": invalid domain characters: \"a_b\""
    );
    assert_eq!(
        err(&["ip-cidr:nonsense,block"]),
        "rule #0 \"ip-cidr:nonsense,block\": invalid cidr: invalid IP address syntax"
    );
    assert_eq!(
        err(&["geo:x,block"]),
        "rule #0 \"geo:x,block\": unknown rule type (expected \
         domain|domain-suffix|domain-keyword|ip-cidr)"
    );
    assert_eq!(
        Policy::parse("nope").unwrap_err(),
        "unknown policy: \"nope\" (expected proxy|direct|block)"
    );
    assert_eq!(Policy::parse("block"), Ok(Policy::Block));
}

// ---------------------------------------------------------------------------
// SOCKS5
// ---------------------------------------------------------------------------

#[test]
fn greeting_is_negotiated() {
    assert_eq!(check_greeting(&[5, 2]).unwrap(), 2);
    let e = check_greeting(&[4, 1]).unwrap_err();
    assert_eq!(e.kind, IoErrorKind::InvalidData);
    assert_eq!(e.message, "bad SOCKS version 0x04");
    let a = answer_greeting(&[2, 0]);
    assert_eq!(a.reply, [5, 0]);
    assert!(a.error.is_none());
    let a = answer_greeting(&[1, 2]);
    assert_eq!(a.reply, [5, 0xff]);
    assert_eq!(a.error.unwrap().message, "client offered no acceptable auth method");
}

#[test]
fn requests_are_checked() {
    assert_eq!(check_request(&[5, 1, 0, 3]), Ok(3));
    let e = check_request(&[4, 1, 0, 3]).unwrap_err();
    assert_eq!(e, RequestRefusal::BadVersion(4));
    assert_eq!(e.message(), "bad SOCKS version 0x04");
    assert_eq!(e.reply_code(), None);
    let e = check_request(&[5, 0xab, 0, 3]).unwrap_err();
    assert_eq!(e.message(), "unsupported command 0xab");
    assert_eq!(e.reply_code(), Some(7));
    assert_eq!(reply(REP_SUCCEEDED), [5, 0, 0, 1, 0, 0, 0, 0, 0, 0]);
    assert_eq!(address_failure_code(IoErrorKind::InvalidData), REP_ATYP_UNSUPPORTED);
    assert_eq!(address_failure_code(IoErrorKind::UnexpectedEof), REP_GENERAL);
}

#[test]
fn inbound_session_runs() {
    let next = |state: SocksState, bytes: &[u8]| {
        assert_eq!(state.need(), bytes.len());
        match socks_step(state, bytes) {
            SocksStep::Read(out, next) => (out, next),
            _ => panic!("the session goes on"),
        }
    };
    let (out, state) = next(SocksState::Greeting, &[5, 2]);
    assert!(out.is_empty());
    let (out, state) = next(state, &[1, 0]);
    assert_eq!(out, [5, 0]);
    let (out, state) = next(state, &[5, 1, 0, 3]);
    assert!(out.is_empty());
    assert!(SocksState::Greeting.read_failure_reply(IoErrorKind::UnexpectedEof).is_none());
    assert_eq!(
        state.read_failure_reply(IoErrorKind::UnexpectedEof),
        Some([5, 1, 0, 1, 0, 0, 0, 0, 0, 0])
    );
    let (_, state) = next(state, &[4]);
    let (_, state) = next(state, b"A.Io");
    match socks_step(state, &[1, 0xbb]) {
        SocksStep::Connect(a) => assert_eq!(a.to_display(), "a.io:443"),
        _ => panic!("the address is complete"),
    }

    for (state, bytes, out, text) in [
        (SocksState::Greeting, vec![4u8, 1], vec![], "bad SOCKS version 0x04"),
        (
            SocksState::Methods(1),
            vec![9],
            vec![5, 0xff],
            "client offered no acceptable auth method",
        ),
        (
            SocksState::Request,
            vec![5, 2, 0, 1],
            vec![5, 7, 0, 1, 0, 0, 0, 0, 0, 0],
            "unsupported command 0x02",
        ),
        (
            SocksState::Request,
            vec![5, 1, 0, 9],
            vec![5, 8, 0, 1, 0, 0, 0, 0, 0, 0],
            "unsupported ATYP 0x09",
        ),
        (SocksState::Request, vec![6, 1, 0, 1], vec![], "bad SOCKS version 0x06"),
    ] {
        match socks_step(state, &bytes) {
            SocksStep::Refuse(b, e) => {
                assert_eq!(b, out);
                assert_eq!(e.message, text);
            }
            _ => panic!("the session ends: {text}"),
        }
    }
}

#[test]
fn server_connections_run() {
    let (state, action) = server_step(ServerState::Handshaking, ServerEvent::HandshakeDone);
    assert!(matches!(action, ServerAction::ReadRequest));
    assert_eq!(state, ServerState::AwaitingRequest);
    assert!(matches!(
        server_step(ServerState::Handshaking, ServerEvent::HandshakeFailed),
        (ServerState::Ended, ServerAction::Fail(CloseLevel::Warn))
    ));
    let request = [ATYP_IPV4, 1, 2, 3, 4, 0, 80];
    match server_step(state, ServerEvent::RequestRead(&request)) {
        (ServerState::Connecting, ServerAction::Connect(a)) => {
            assert_eq!(a.to_display(), "1.2.3.4:80");
        }
        _ => panic!("the request is well formed"),
    }
    assert!(matches!(
        server_step(state, ServerEvent::RequestRead(&request[1..])),
        (ServerState::Ended, ServerAction::Fail(CloseLevel::Warn))
    ));
    assert!(matches!(
        server_step(state, ServerEvent::RequestFailed(&[Cause::Io(IoErrorKind::UnexpectedEof)])),
        (ServerState::Ended, ServerAction::Fail(CloseLevel::Debug))
    ));
    assert!(matches!(
        server_step(state, ServerEvent::RequestFailed(&[Cause::Core(Error::InvalidFrame)])),
        (ServerState::Ended, ServerAction::Fail(CloseLevel::Warn))
    ));
}

#[test]
fn one_response_goes_before_data() {
    let (state, action) = server_step(ServerState::Connecting, ServerEvent::TargetTried(true));
    assert!(matches!(action, ServerAction::Reply([STATUS_OK])));
    assert!(matches!(
        server_step(state, ServerEvent::ReplySent),
        (ServerState::Pumping, ServerAction::Pump)
    ));
    assert!(matches!(
        server_step(state, ServerEvent::ReplyFailed),
        (ServerState::Ended, ServerAction::Fail(CloseLevel::Warn))
    ));
    assert!(matches!(
        server_step(state, ServerEvent::TargetTried(true)),
        (ServerState::Ended, ServerAction::Fail(CloseLevel::Warn))
    ));
    let (state, action) = server_step(ServerState::Connecting, ServerEvent::TargetTried(false));
    assert!(matches!(action, ServerAction::Reply([STATUS_REFUSED])));
    for event in [ServerEvent::ReplySent, ServerEvent::ReplyFailed] {
        let (state, action) = server_step(state, event);
        assert!(matches!(action, ServerAction::Finish));
        assert!(matches!(
            server_step(state, ServerEvent::ReplySent),
            (ServerState::Ended, ServerAction::Fail(CloseLevel::Warn))
        ));
    }
}

#[test]
fn request_addresses_are_read() {
    let mut s: &[u8] = &[1, 2, 3, 4, 0, 80, 9];
    let a = read_addr(&mut s, ATYP_IPV4).unwrap();
    assert_eq!(a.to_display(), "1.2.3.4:80");
    assert_eq!(s, [9]);
    let mut s: &[u8] = b"\x04A.Io\x01\xbbrest";
    let a = read_addr(&mut s, ATYP_DOMAIN).unwrap();
    assert_eq!(a.to_display(), "a.io:443");
    assert_eq!(s, b"rest");
    let mut v6 = vec![0u8; 16];
    v6[15] = 1;
    v6.extend_from_slice(&[0, 22]);
    let mut s: &[u8] = &v6;
    assert_eq!(read_addr(&mut s, ATYP_IPV6).unwrap().to_display(), "[::1]:22");
    for (bytes, atyp, text) in [
        (b"\x00".as_slice(), ATYP_DOMAIN, "empty domain"),
        (b"\x02\xff\xfe\x00\x50", ATYP_DOMAIN, "domain is not utf-8"),
        (b"\x02\xc3\xa9\x00\x50", ATYP_DOMAIN, "invalid domain characters"),
        (b"\x03a b\x00\x50", ATYP_DOMAIN, "invalid domain characters"),
        (b"", 9, "unsupported ATYP 0x09"),
    ] {
        let mut s: &[u8] = bytes;
        let e = read_addr(&mut s, atyp).unwrap_err();
        assert_eq!(e.kind, IoErrorKind::InvalidData);
        assert_eq!(e.message, text);
    }
    for (bytes, atyp) in [
        (b"\x01\x02\x03".as_slice(), ATYP_IPV4),
        (b"\x01\x02\x03\x04\x00", ATYP_IPV4),
        (b"\x05ab", ATYP_DOMAIN),
        (b"\x02ab\x00", ATYP_DOMAIN),
        (b"", ATYP_DOMAIN),
        (b"0123456789", ATYP_IPV6),
    ] {
        let mut s: &[u8] = bytes;
        assert_eq!(read_addr(&mut s, atyp).unwrap_err().kind, IoErrorKind::UnexpectedEof);
    }
}

// ---------------------------------------------------------------------------
// Pumps
// ---------------------------------------------------------------------------

#[test]
fn ends_are_classified() {
    let io = |kind, m: &str| IoError::new(kind, m);
    assert_eq!(
        classify_io(&io(IoErrorKind::ConnectionReset, "x")),
        PumpEnd::Closed("connection reset")
    );
    assert_eq!(classify_io(&io(IoErrorKind::WouldBlock, "x")), PumpEnd::Closed("timeout"));
    assert_eq!(
        classify_io(&io(IoErrorKind::Other, "disk on fire")),
        PumpEnd::Fault(String::from("disk on fire"))
    );
    assert_eq!(
        classify_core(&Error::Io(io(IoErrorKind::UnexpectedEof, "x"))),
        PumpEnd::Closed("eof")
    );
    assert_eq!(
        classify_core(&Error::HandshakeFailed("late")),
        PumpEnd::Fault(String::from("handshake failed: late"))
    );
    assert!(is_routine_io(IoErrorKind::Interrupted));
    assert!(!is_routine_io(IoErrorKind::InvalidData));
    assert!(is_routine_core(&Error::HandshakeFailed("probe")));
    assert!(!is_routine_core(&Error::ChecksumMismatch));
}

#[test]
fn clean_closes_need_a_recognized_cause() {
    assert!(!is_clean_close(&[]));
    assert!(!is_clean_close(&[Cause::Other]));
    assert!(is_clean_close(&[Cause::Other, Cause::Io(IoErrorKind::BrokenPipe)]));
    assert!(!is_clean_close(&[Cause::Io(IoErrorKind::BrokenPipe), Cause::Core(Error::ZeroLength)]));
    assert!(closed_before_request(&[]));
    assert!(closed_before_request(&[Cause::Other, Cause::Io(IoErrorKind::TimedOut)]));
    assert!(!closed_before_request(&[Cause::Io(IoErrorKind::Interrupted)]));
    assert!(!closed_before_request(&[Cause::Core(Error::InvalidFrame)]));
    assert!(closed_before_request(&[Cause::Core(Error::HandshakeFailed("x"))]));
}

#[test]
fn pump_steps() {
    assert_eq!(up_step(Ok(0)), UpStep::SendEof);
    assert_eq!(up_step(Ok(5)), UpStep::SendData);
    assert_eq!(up_step(Err(IoErrorKind::Interrupted)), UpStep::Retry);
    assert_eq!(up_step(Err(IoErrorKind::TimedOut)), UpStep::Close);
    assert_eq!(down_step(&[FRAME_DATA, 1]), DownStep::Deliver);
    assert_eq!(down_step(&[FRAME_EOF]), DownStep::HalfClose);
    assert_eq!(
        down_step(&[FRAME_DATA]),
        DownStep::Fault(String::from("empty data frame"))
    );
    assert_eq!(
        down_step(&[0x2a, 1]),
        DownStep::Fault(String::from("unknown frame kind 0x2a"))
    );
}

#[test]
fn stats_report_faults_and_causes() {
    let stats = |up_end, down_end| PumpStats { up: 1, down: 2, up_end, down_end };
    let s = stats(PumpEnd::Eof("local eof"), PumpEnd::Closed("eof"));
    assert_eq!(s.fault(), None);
    assert_eq!(s.end_causes(), "up: local eof, down: eof");
    assert_eq!(s.summary(64), "up 1 B down 2 B in 1m04s (up: local eof, down: eof)");
    assert!(!s.up_end.kills_session() && s.down_end.kills_session());
    let s = stats(PumpEnd::Closed("eof"), PumpEnd::Closed("eof"));
    assert_eq!(s.end_causes(), "eof");
    let s = stats(PumpEnd::Eof("x"), PumpEnd::Fault(String::from("bad")));
    assert_eq!(s.fault(), Some("bad"));
    assert!(s.down_end.is_fault() && !s.up_end.is_fault());
    let s = stats(PumpEnd::Fault(String::from("first")), PumpEnd::Fault(String::from("bad")));
    assert_eq!(s.fault(), Some("first"));
    assert_eq!(s.up_end.cause(), "first");
}

#[test]
fn serving_decisions() {
    assert_eq!(session_id_for(0, 0), 1);
    assert_eq!(session_id_for(5, 7), 12);
    assert_eq!(session_id_for(u64::MAX, u64::MAX), 2 * u128::from(u64::MAX));
    let mut ids = SessionIds::starting_at(0);
    assert_eq!((ids.next_id(), ids.next_id(), ids.next_id()), (1, 1, 2));
    let mut ids = SessionIds::starting_at(u64::MAX);
    assert_eq!(ids.next_id(), u128::from(u64::MAX));
    assert_eq!(ids.next_id(), u128::from(u64::MAX) + 1);
    let mut random = SessionIds::new().unwrap();
    assert_ne!(random.next_id(), random.next_id());
    assert!(admits(9, None) && admits(1, Some(2)) && !admits(2, Some(2)));
    assert_eq!(drain_step(0, true), DrainStep::Complete);
    assert_eq!(drain_step(1, true), DrainStep::TimedOut);
    assert_eq!(drain_step(1, false), DrainStep::Wait);
    assert_eq!(connect_reply(true), [STATUS_OK]);
    assert_eq!(connect_reply(false), [STATUS_REFUSED]);
    assert!(reply_accepted(&[STATUS_OK, 9]));
    assert!(!reply_accepted(&[STATUS_REFUSED]) && !reply_accepted(&[]));
    assert_eq!(connect_step(2, 0, true), ConnectStep::Try(0));
    assert_eq!(connect_step(2, 1, false), ConnectStep::DeadlineExceeded);
    assert_eq!(connect_step(2, 2, true), ConnectStep::GiveUp);
    assert!(accept_exhausted(true, false, Some(24)));
    assert!(!accept_exhausted(true, false, Some(10055)));
    assert!(accept_exhausted(false, true, Some(10055)));
    assert!(!accept_exhausted(true, false, None));
}

#[test]
fn session_bases_are_not_zero() {
    assert_eq!(session_base(0), 1);
    assert_eq!(session_base(1), 1);
    assert_eq!(session_base(u64::MAX), u64::MAX);
    let mut ids = SessionIds::starting_at(session_base(0));
    assert_eq!((ids.next_id(), ids.next_id(), ids.next_id()), (1, 2, 3));
}

#[test]
fn server_traffic_is_named_by_its_end() {
    let stats = PumpStats {
        up: 3,
        down: 5,
        up_end: PumpEnd::Eof("local eof"),
        down_end: PumpEnd::Closed("eof"),
    };
    assert_eq!(server_traffic(&stats), (5, 3));
}

#[test]
fn http_requests_are_answered() {
    for connect in [false, true] {
        let code = |outcome| answer_code(outcome, connect);
        assert_eq!(code(HttpOutcome::Refused(HttpError::BadRequestLine)), Some(400));
        assert_eq!(code(HttpOutcome::Refused(HttpError::NoHostHeader)), None);
        assert_eq!(code(HttpOutcome::Refused(HttpError::Authority(AuthorityError::BadPort))), None);
        assert_eq!(code(HttpOutcome::Blocked), Some(403));
        assert_eq!(code(HttpOutcome::ConnectFailed), Some(502));
    }
    assert_eq!(answer_code(HttpOutcome::Connected, true), Some(200));
    assert_eq!(answer(HttpOutcome::Connected, false), None);
    let text = |code, reason| Some(response(code, reason));
    assert_eq!(answer(HttpOutcome::Connected, true), text(200, "Connection Established"));
    assert_eq!(answer(HttpOutcome::Blocked, true), text(403, "Forbidden"));
    assert_eq!(answer(HttpOutcome::ConnectFailed, false), text(502, "Bad Gateway"));
    assert_eq!(
        answer(HttpOutcome::Refused(HttpError::BadRequestLine), false),
        text(400, "Bad Request")
    );
}

#[test]
fn drain_returns_when_sessions_hit_zero() {
    let mut active = 1u64;
    let now = Instant::now();
    let timeout = Duration::from_secs(DRAIN_TIMEOUT_SECS);
    loop {
        active = active.saturating_sub(1);
        match drain_step(active, now.elapsed() >= timeout) {
            DrainStep::Complete => break,
            DrainStep::TimedOut => panic!("no session is active"),
            DrainStep::Wait => {}
        }
    }
    // Zero-active fast path: no full timeout wait.
    assert!(now.elapsed() < timeout);
}

#[test]
fn bypass_lists() {
    assert_eq!(bypass_list(&[String::from("a"), String::from("b")], ";"), "a;b");
    assert_eq!(
        bypass_list(&[], ","),
        "localhost,127.*,192.168.*,10.*,172.16.*,172.17.*,172.18.*,172.19.*,172.2?.*,172.30.*,\
         172.31.*,<local>"
    );
}

// ---------------------------------------------------------------------------
// Formatting
// ---------------------------------------------------------------------------

#[test]
fn bytes_and_durations_render() {
    assert_eq!(fmt_bytes(0), "0 B");
    assert_eq!(fmt_bytes(512), "512 B");
    assert_eq!(fmt_bytes(1024), "1.0 KiB");
    assert_eq!(fmt_bytes(3 * 1024 * 1024), "3.0 MiB");
    assert_eq!(fmt_duration(Duration::from_secs(3).as_secs()), "3s");
    assert_eq!(fmt_duration(Duration::from_secs(64).as_secs()), "1m04s");
    assert_eq!(fmt_duration(Duration::from_secs(3600).as_secs()), "1h00m00s");
    assert_eq!(fmt_duration(Duration::from_secs(3 * 86_400).as_secs()), "3d00h00m");
    assert_eq!(
        fmt_duration(Duration::from_secs(86_400 + 3 * 3600 + 5 * 60).as_secs()),
        "1d03h05m"
    );
}

/// The same count by floating point.
fn bytes_by_float(n: u64) -> String {
    let units = ["B", "KiB", "MiB", "GiB", "TiB", "PiB"];
    let mut value = n as f64;
    let mut unit = 0usize;
    while value >= 1024.0 && unit < 5 {
        value /= 1024.0;
        unit += 1;
    }
    if unit == 0 {
        format!("{n} B")
    } else {
        format!("{value:.1} {}", units[unit])
    }
}

#[test]
fn byte_counts_agree_with_floating_point() {
    let mut s = 0x1234_5678_9abc_def1u64;
    for i in 0..20_000u32 {
        s ^= s << 13;
        s ^= s >> 7;
        s ^= s << 17;
        let n = s >> (i % 64);
        assert_eq!(fmt_bytes(n), bytes_by_float(n), "{n}");
    }
    for k in 0..64u32 {
        for d in [0u64, 1, 2, 51, 52, 256, 768, 1024] {
            let n = (1u64 << k).wrapping_add(d).wrapping_sub(1);
            assert_eq!(fmt_bytes(n), bytes_by_float(n), "{n}");
        }
    }
    for n in [u64::MAX, 1280, 1792, 1_048_575, 1_125_899_906_842_623, 9_007_199_254_740_993] {
        assert_eq!(fmt_bytes(n), bytes_by_float(n), "{n}");
    }
}

// ---------------------------------------------------------------------------
// Configuration
// ---------------------------------------------------------------------------

#[test]
fn obfuscation_defaults_match_core() {
    assert_eq!(
        ObfuscationConfig::default().to_key(None).unwrap(),
        ObfuscationKey::default()
    );
}

#[test]
fn obfuscation_partial_override() {
    let cfg = ObfuscationConfig {
        protocol_key: Some(String::from("sekrit")),
        ..ObfuscationConfig::default()
    };
    assert_eq!(cfg.protocol_key.as_deref(), Some("sekrit"));
    assert_eq!(cfg.kf, ObfuscationKey::default().kf);
    let key = cfg.to_key(None).unwrap();
    assert_eq!(key.protocol_key, "sekrit");
    assert_eq!(key.transport_key, "nextppp");
    assert_eq!(key.transport, Method::Aes256Cfb);
}

#[test]
fn shared_password_backs_unset_keys() {
    let cfg = ObfuscationConfig::default();
    let key = cfg.to_key(Some("shared")).unwrap();
    assert_eq!(key.protocol_key, "shared");
    assert_eq!(key.transport_key, "shared");
    let cfg = ObfuscationConfig {
        protocol_key: Some(String::from("one")),
        transport_key: Some(String::from("two")),
        ..ObfuscationConfig::default()
    };
    let key = cfg.to_key(Some("shared")).unwrap();
    assert_eq!(key.protocol_key, "one");
    assert_eq!(key.transport_key, "two");
}

#[test]
fn empty_password_rejected() {
    let cfg = ObfuscationConfig {
        protocol_key: Some(String::new()),
        ..ObfuscationConfig::default()
    };
    let err = cfg.to_key(Some("shared")).unwrap_err();
    assert!(err.contains("empty password"));
    assert_eq!(
        ObfuscationConfig::default().to_key(Some("")).unwrap_err(),
        "empty password for protocol_key"
    );
}

#[test]
fn unknown_method_rejected() {
    let cfg = ObfuscationConfig {
        transport: String::from("rc4-md5"),
        ..ObfuscationConfig::default()
    };
    assert!(cfg.to_key(None).unwrap_err().contains("unknown cipher"));
    assert_eq!(
        cfg.to_key(None).unwrap_err(),
        "unknown cipher method \"rc4-md5\" (supported: aes-128-cfb, aes-256-cfb, aes-128-ctr, \
         aes-256-ctr, chacha20-ietf)"
    );
}

#[test]
fn nop_exponent_overflow_rejected() {
    let cfg = ObfuscationConfig {
        kl: 32,
        ..ObfuscationConfig::default()
    };
    assert!(cfg.to_key(None).unwrap_err().contains("kl/kh"));
    let cfg = ObfuscationConfig {
        kh: 21,
        ..ObfuscationConfig::default()
    };
    assert!(cfg.to_key(None).unwrap_err().contains("kl/kh"));
}

fn client_config() -> ClientConfig {
    ClientConfig {
        listen: String::from("127.0.0.1:1080"),
        password: Some(String::from("sekrit")),
        max_connections: None,
        server: ServerSection {
            address: String::from("example.com:6666"),
            connect_timeout: default_connect_timeout(),
            obfuscation: ObfuscationConfig::default(),
        },
    }
}

/// A value of a parsed configuration file.
#[derive(Debug)]
enum Node {
    Text(String),
    Fields(HashMap<String, Node>),
}

impl Node {
    fn text(self) -> String {
        match self {
            Node::Text(t) => t,
            Node::Fields(_) => panic!("a string is expected"),
        }
    }

    fn fields(self) -> HashMap<String, Node> {
        match self {
            Node::Fields(f) => f,
            Node::Text(_) => panic!("an object is expected"),
        }
    }
}

struct NodeVisitor;

impl<'de> Visitor<'de> for NodeVisitor {
    type Value = Node;

    fn expecting(&self, f: &mut std::fmt::Formatter<'_>) -> std::fmt::Result {
        f.write_str("a string or an object")
    }

    fn visit_str<E>(self, text: &str) -> Result<Node, E> {
        Ok(Node::Text(String::from(text)))
    }

    fn visit_map<A: MapAccess<'de>>(self, mut map: A) -> Result<Node, A::Error> {
        let mut fields = HashMap::new();
        while let Some((name, value)) = map.next_entry()? {
            fields.insert(name, value);
        }
        Ok(Node::Fields(fields))
    }
}

impl<'de> Deserialize<'de> for Node {
    fn deserialize<D: Deserializer<'de>>(d: D) -> Result<Node, D::Error> {
        d.deserialize_any(NodeVisitor)
    }
}

#[test]
fn client_config_parses_with_comments_and_defaults() {
    let text = r#"{
            // local socks5 inbound
            "listen": "127.0.0.1:1080",
            "password": "sekrit",
            "server": { "address": "example.com:6666" },
        }"#;
    let mut file = json5::from_str::<Node>(text).unwrap().fields();
    let mut server = file.remove("server").unwrap().fields();
    let cfg = ClientConfig {
        listen: file.remove("listen").unwrap().text(),
        password: file.remove("password").map(Node::text),
        max_connections: None,
        server: ServerSection {
            address: server.remove("address").unwrap().text(),
            connect_timeout: default_connect_timeout(),
            obfuscation: ObfuscationConfig::default(),
        },
    };
    assert!(file.is_empty() && server.is_empty());
    assert_eq!(cfg.listen, "127.0.0.1:1080");
    assert_eq!(cfg.server.address, "example.com:6666");
    assert_eq!(cfg.server.connect_timeout, 10);
    assert_eq!(cfg.password.as_deref(), Some("sekrit"));
    let key = cfg
        .server
        .obfuscation
        .to_key(cfg.password.as_deref())
        .unwrap();
    assert_eq!(key.protocol_key, "sekrit");
    assert_eq!(key.transport_key, "sekrit");
}

#[test]
fn runtimes_come_from_configurations() {
    let rt = ClientRuntime::from_config(&client_config()).unwrap();
    assert_eq!(rt.server_host, Host::Domain(String::from("example.com")));
    assert_eq!((rt.server_port, rt.connect_timeout), (6666, 10));
    assert!(!ObfuscationConfig::warn_placeholder(&rt.server_key));
    let mut cfg = client_config();
    cfg.server.address = String::from("example.com");
    assert!(matches!(
        ClientRuntime::from_config(&cfg),
        Err(StartError::ServerAddress(HostPortError::MissingPort))
    ));
    cfg.password = Some(String::new());
    assert!(matches!(ClientRuntime::from_config(&cfg), Err(StartError::Obfuscation(_))));

    let cfg = ServerConfig {
        listen: String::from("0.0.0.0:6666"),
        password: None,
        connect_timeout: default_connect_timeout(),
        handshake_timeout: default_handshake_timeout(),
        max_connections: Some(3),
        obfuscation: ObfuscationConfig::default(),
    };
    let rt = ServerRuntime::from_config(&cfg).unwrap();
    assert_eq!((rt.connect_timeout, rt.handshake_timeout), (10, 15));
    assert!(ObfuscationConfig::warn_placeholder(&rt.key));
}
