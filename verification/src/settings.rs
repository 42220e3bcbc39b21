//! Configuration of the server and client programs.
//!
//! All fields have safe defaults, except the deployment secrets, which every
//! real deployment must change.

use crate::addr::Host;
use crate::config::{ObfuscationKey, MAX_NOP_EXPONENT};
use crate::crypto::cipher::{law_method_name_roundtrip, law_method_names, Method};
use crate::endpoint::{host_port, parse_host_port, HostPortError};
use crate::error::Error;
use crate::text::{debug_text, lower, push_str, quoted, text_eq, trimmed};
use vstd::prelude::*;

verus! {

/// Obfuscation and cipher parameters as a configuration file gives them.
/// Method names are `aes-128-cfb`, `aes-256-cfb`, `aes-128-ctr`, `aes-256-ctr`
/// and `chacha20-ietf`.
#[derive(Debug, Clone, PartialEq, Eq)]
pub struct ObfuscationConfig {
    /// Global obfuscation key.
    pub kf: u32,
    /// Noise prelude lower exponent.
    pub kl: u8,
    /// Noise prelude upper exponent.
    pub kh: u8,
    /// Handshake packet padding amount.
    pub kx: u32,
    /// Protocol cipher name (frame header).
    pub protocol: String,
    /// Protocol cipher password. Falls back to the shared password, then to the
    /// built-in placeholder.
    pub protocol_key: Option<String>,
    /// Transport cipher name (payload).
    pub transport: String,
    /// Transport cipher password. Falls back to the shared password, then to
    /// the built-in placeholder.
    pub transport_key: Option<String>,
    /// Payload mask switch.
    pub masked: bool,
    /// Keep the printable base94 shell after the handshake.
    pub plaintext: bool,
    /// Payload delta-encoding switch.
    pub delta_encode: bool,
    /// Payload shuffle switch.
    pub shuffle_data: bool,
}

/// What an optional string holds.
pub open spec fn text_of(s: Option<String>) -> Option<Seq<char>> {
    match s {
        Some(t) => Some(t@),
        None => None,
    }
}

/// What an optional string slice holds.
pub open spec fn str_of(s: Option<&str>) -> Option<Seq<char>> {
    match s {
        Some(t) => Some(t@),
        None => None,
    }
}

/// The password of a layer: its own, else the shared one, else the placeholder.
/// One that is set but empty is refused.
pub open spec fn password_of(own: Option<Seq<char>>, shared: Option<Seq<char>>) -> Option<
    Seq<char>,
> {
    match own {
        Some(p) => if p.len() > 0 {
            Some(p)
        } else {
            None
        },
        None => match shared {
            Some(p) => if p.len() > 0 {
                Some(p)
            } else {
                None
            },
            None => Some("nextppp"@),
        },
    }
}

/// The complaint about an empty password.
pub open spec fn empty_password(field: Seq<char>) -> Seq<char> {
    "empty password for "@ + field
}

/// The complaint about a cipher name, given in quotes.
pub open spec fn unknown_method(name: Seq<char>) -> Seq<char> {
    "unknown cipher method "@ + name
        + " (supported: aes-128-cfb, aes-256-cfb, aes-128-ctr, aes-256-ctr, chacha20-ietf)"@
}

/// The complaint about a cipher name, given in quotes.
pub fn unknown_method_message(name: &str) -> (r: String)
    ensures
        r@ == unknown_method(name@),
{
    let mut out: String = String::new();
    push_str(&mut out, "unknown cipher method ");
    push_str(&mut out, name);
    push_str(
        &mut out,
        " (supported: aes-128-cfb, aes-256-cfb, aes-128-ctr, aes-256-ctr, chacha20-ietf)",
    );
    assert(out@ =~= unknown_method(name@));
    out
}

impl ObfuscationConfig {
    /// The parameters that stand for themselves are those of `ObfuscationKey`'s
    /// defaults, and no password is set.
    pub open spec fn is_default(self) -> bool {
        &&& self.kf == 154_543_927
        &&& self.kl == 10
        &&& self.kh == 12
        &&& self.kx == 128
        &&& self.protocol@ == "aes-128-cfb"@
        &&& self.protocol_key is None
        &&& self.transport@ == "aes-256-cfb"@
        &&& self.transport_key is None
        &&& self.masked
        &&& self.plaintext
        &&& self.delta_encode
        &&& self.shuffle_data
    }

    /// The first complaint about a configuration, if there is one.
    pub open spec fn complaint(self, shared: Option<Seq<char>>) -> Option<Seq<char>> {
        if password_of(text_of(self.protocol_key), shared) is None {
            Some(empty_password("protocol_key"@))
        } else if Method::named(self.protocol@) is None {
            Some(unknown_method(debug_text(self.protocol@)))
        } else if password_of(text_of(self.transport_key), shared) is None {
            Some(empty_password("transport_key"@))
        } else if Method::named(self.transport@) is None {
            Some(unknown_method(debug_text(self.transport@)))
        } else if self.kl > MAX_NOP_EXPONENT || self.kh > MAX_NOP_EXPONENT {
            Some(Error::InvalidConfig("kl/kh exceed MAX_NOP_EXPONENT").text())
        } else {
            None
        }
    }

    /// A key holds what this configuration says.
    pub open spec fn gives(self, shared: Option<Seq<char>>, key: ObfuscationKey) -> bool {
        &&& key.kf == self.kf
        &&& key.kl == self.kl
        &&& key.kh == self.kh
        &&& key.kx == self.kx
        &&& Some(key.protocol) == Method::named(self.protocol@)
        &&& Some(key.protocol_key@) == password_of(text_of(self.protocol_key), shared)
        &&& Some(key.transport) == Method::named(self.transport@)
        &&& Some(key.transport_key@) == password_of(text_of(self.transport_key), shared)
        &&& key.masked == self.masked
        &&& key.plaintext == self.plaintext
        &&& key.delta_encode == self.delta_encode
        &&& key.shuffle_data == self.shuffle_data
    }

    fn method(name: &str) -> (r: Result<Method, String>)
        ensures
            match Method::named(name@) {
                Some(m) => r == Ok::<Method, String>(m),
                None => r matches Err(e) && e@ == unknown_method(debug_text(name@)),
            },
    {
        match Method::from_name(name) {
            Some(m) => Ok(m),
            None => {
                let shown: String = quoted(name);
                Err(unknown_method_message(shown.as_str()))
            },
        }
    }

    fn resolve_password(own: &Option<String>, shared: Option<&str>, field: &str) -> (r: Result<
        String,
        String,
    >)
        ensures
            match password_of(text_of(*own), str_of(shared)) {
                Some(p) => r matches Ok(v) && v@ == p,
                None => r matches Err(e) && e@ == empty_password(field@),
            },
    {
        let chosen: Option<&str> = match own {
            Some(p) => Some(p.as_str()),
            None => shared,
        };
        let mut out: String = String::new();
        match chosen {
            Some(p) => {
                if p.is_empty() {
                    push_str(&mut out, "empty password for ");
                    push_str(&mut out, field);
                    assert(out@ =~= empty_password(field@));
                    return Err(out);
                }
                push_str(&mut out, p);
                assert(out@ =~= p@);
            },
            None => {
                push_str(&mut out, "nextppp");
                assert(out@ =~= "nextppp"@);
            },
        }
        Ok(out)
    }

    /// Validates and converts into the protocol's [`ObfuscationKey`].
    /// `shared_password` backs any cipher key left unset; sharing one password
    /// across layers is safe because the key derivation separates the layers.
    pub fn to_key(&self, shared_password: Option<&str>) -> (r: Result<ObfuscationKey, String>)
        ensures
            match self.complaint(str_of(shared_password)) {
                Some(e) => r matches Err(t) && t@ == e,
                None => r matches Ok(key) && self.gives(str_of(shared_password), key)
                    && key.valid(),
            },
            r matches Ok(key) ==> key.kf == self.kf && key.kl == self.kl && key.kh == self.kh
                && key.kx == self.kx && key.masked == self.masked && key.plaintext == self.plaintext
                && key.delta_encode == self.delta_encode && key.shuffle_data == self.shuffle_data,
    {
        let protocol_key: String = match Self::resolve_password(
            &self.protocol_key,
            shared_password,
            "protocol_key",
        ) {
            Ok(p) => p,
            Err(e) => return Err(e),
        };
        let protocol: Method = match Self::method(self.protocol.as_str()) {
            Ok(m) => m,
            Err(e) => return Err(e),
        };
        let transport_key: String = match Self::resolve_password(
            &self.transport_key,
            shared_password,
            "transport_key",
        ) {
            Ok(p) => p,
            Err(e) => return Err(e),
        };
        let transport: Method = match Self::method(self.transport.as_str()) {
            Ok(m) => m,
            Err(e) => return Err(e),
        };
        proof {
            reveal_strlit("nextppp");
        }
        let key: ObfuscationKey = ObfuscationKey {
            kf: self.kf,
            kl: self.kl,
            kh: self.kh,
            kx: self.kx,
            protocol,
            protocol_key,
            transport,
            transport_key,
            masked: self.masked,
            plaintext: self.plaintext,
            delta_encode: self.delta_encode,
            shuffle_data: self.shuffle_data,
        };
        match key.validate() {
            Ok(()) => Ok(key),
            Err(e) => Err(e.message()),
        }
    }

    /// Whether a deployment still runs on the built-in placeholder password, so
    /// that a warning is due.
    pub fn warn_placeholder(key: &ObfuscationKey) -> (r: bool)
        ensures
            r == (key.protocol_key@ == "nextppp"@ && key.transport_key@ == "nextppp"@),
    {
        text_eq(key.protocol_key.as_str(), "nextppp") && text_eq(
            key.transport_key.as_str(),
            "nextppp",
        )
    }
}

impl Default for ObfuscationConfig {
    fn default() -> (r: ObfuscationConfig)
        ensures
            r.is_default(),
    {
        let k: ObfuscationKey = ObfuscationKey::default();
        ObfuscationConfig {
            kf: k.kf,
            kl: k.kl,
            kh: k.kh,
            kx: k.kx,
            protocol: k.protocol.name().to_owned(),
            protocol_key: None,
            transport: k.transport.name().to_owned(),
            transport_key: None,
            masked: k.masked,
            plaintext: k.plaintext,
            delta_encode: k.delta_encode,
            shuffle_data: k.shuffle_data,
        }
    }
}

/// A configuration carries over into its key field by field, so that two
/// configurations that differ in a number or a switch give keys that differ in
/// it.
pub proof fn law_config_carries_over(
    a: ObfuscationConfig,
    b: ObfuscationConfig,
    shared_a: Option<Seq<char>>,
    shared_b: Option<Seq<char>>,
    x: ObfuscationKey,
    y: ObfuscationKey,
)
    requires
        a.gives(shared_a, x),
        b.gives(shared_b, y),
    ensures
        x.kf == a.kf && x.kl == a.kl && x.kh == a.kh && x.kx == a.kx,
        x.masked == a.masked,
        x.plaintext == a.plaintext,
        x.delta_encode == a.delta_encode,
        x.shuffle_data == a.shuffle_data,
        a.kf != b.kf ==> x.kf != y.kf,
        a.masked != b.masked ==> x.masked != y.masked,
        a.plaintext != b.plaintext ==> x.plaintext != y.plaintext,
        a.delta_encode != b.delta_encode ==> x.delta_encode != y.delta_encode,
        a.shuffle_data != b.shuffle_data ==> x.shuffle_data != y.shuffle_data,
        x.protocol == Method::Aes128Cfb <==> lower(trimmed(a.protocol@)) == "aes-128-cfb"@,
        x.protocol == Method::Aes256Cfb <==> lower(trimmed(a.protocol@)) == "aes-256-cfb"@,
        x.protocol == Method::Aes128Ctr <==> lower(trimmed(a.protocol@)) == "aes-128-ctr"@,
        x.protocol == Method::Aes256Ctr <==> lower(trimmed(a.protocol@)) == "aes-256-ctr"@,
        x.protocol == Method::ChaCha20 <==> lower(trimmed(a.protocol@)) == "chacha20"@ || lower(
            trimmed(a.protocol@),
        ) == "chacha20-ietf"@,
        x.transport == Method::Aes128Cfb <==> lower(trimmed(a.transport@)) == "aes-128-cfb"@,
        x.transport == Method::Aes256Cfb <==> lower(trimmed(a.transport@)) == "aes-256-cfb"@,
        x.transport == Method::Aes128Ctr <==> lower(trimmed(a.transport@)) == "aes-128-ctr"@,
        x.transport == Method::Aes256Ctr <==> lower(trimmed(a.transport@)) == "aes-256-ctr"@,
        x.transport == Method::ChaCha20 <==> lower(trimmed(a.transport@)) == "chacha20"@ || lower(
            trimmed(a.transport@),
        ) == "chacha20-ietf"@,
{
    law_method_names(a.protocol@);
    law_method_names(a.transport@);
}

/// Where the passwords of a key come from: the own password of the layer first,
/// then the shared one, then the placeholder `nextppp`.
pub proof fn law_password_fallback(
    cfg: ObfuscationConfig,
    shared: Option<Seq<char>>,
    key: ObfuscationKey,
)
    requires
        cfg.gives(shared, key),
    ensures
        cfg.protocol_key matches Some(p) ==> key.protocol_key@ == p@,
        cfg.transport_key matches Some(p) ==> key.transport_key@ == p@,
        cfg.protocol_key is None ==> (shared matches Some(s) ==> key.protocol_key@ == s),
        cfg.transport_key is None ==> (shared matches Some(s) ==> key.transport_key@ == s),
        cfg.protocol_key is None && shared is None ==> key.protocol_key@ == "nextppp"@,
        cfg.transport_key is None && shared is None ==> key.transport_key@ == "nextppp"@,
{
}

/// Which configurations are accepted: those whose two cipher names are known,
/// whose passwords are not set to nothing, and whose noise exponents are 20 at
/// most; and no others.
pub proof fn law_config_accepted(cfg: ObfuscationConfig, shared: Option<Seq<char>>)
    ensures
        cfg.complaint(shared) is None <==> {
            &&& Method::named(cfg.protocol@) is Some
            &&& Method::named(cfg.transport@) is Some
            &&& cfg.kl <= 20 && cfg.kh <= 20
            &&& match cfg.protocol_key {
                Some(p) => p@.len() > 0,
                None => shared matches Some(s) ==> s.len() > 0,
            }
            &&& match cfg.transport_key {
                Some(p) => p@.len() > 0,
                None => shared matches Some(s) ==> s.len() > 0,
            }
        },
{
}

/// The default configuration gives the default parameters of the protocol.
pub proof fn law_default_config_matches(cfg: ObfuscationConfig, key: ObfuscationKey)
    requires
        cfg.is_default(),
        cfg.gives(None, key),
    ensures
        cfg.complaint(None) is None,
        key.kf == 154_543_927,
        key.kl == 10,
        key.kh == 12,
        key.kx == 128,
        key.protocol == Method::Aes128Cfb,
        key.protocol_key@ == "nextppp"@,
        key.transport == Method::Aes256Cfb,
        key.transport_key@ == "nextppp"@,
        key.masked && key.plaintext && key.delta_encode && key.shuffle_data,
{
    law_method_name_roundtrip(Method::Aes128Cfb);
    law_method_name_roundtrip(Method::Aes256Cfb);
}

// ---------------------------------------------------------------------------
// Program configuration
// ---------------------------------------------------------------------------

/// Server configuration.
#[derive(Debug, Clone)]
pub struct ServerConfig {
    /// Listen address, e.g. `0.0.0.0:6666`.
    pub listen: String,
    /// Shared tunnel password; backs any cipher key left unset.
    pub password: Option<String>,
    /// Outbound (server to target) connect timeout in seconds.
    pub connect_timeout: u64,
    /// Handshake timeout in seconds.
    pub handshake_timeout: u64,
    /// Most connections that may be active at once; no limit where unset.
    pub max_connections: Option<u64>,
    /// Obfuscation parameters, shared with clients.
    pub obfuscation: ObfuscationConfig,
}

/// Client configuration: a plain SOCKS5-to-tunnel forwarder.
#[derive(Debug, Clone)]
pub struct ClientConfig {
    /// Local SOCKS5 inbound listen address.
    pub listen: String,
    /// Shared tunnel password; backs any cipher key left unset. Must match the
    /// server.
    pub password: Option<String>,
    /// Most connections that may be active at once; no limit where unset.
    pub max_connections: Option<u64>,
    /// Remote server section.
    pub server: ServerSection,
}

/// Remote server section of the client configuration.
#[derive(Debug, Clone)]
pub struct ServerSection {
    /// Server address (`host:port`).
    pub address: String,
    /// Connect and handshake timeout in seconds.
    pub connect_timeout: u64,
    /// Obfuscation parameters, must match the server.
    pub obfuscation: ObfuscationConfig,
}

/// The connect timeout of a configuration that sets none, in seconds.
pub fn default_connect_timeout() -> (r: u64)
    ensures
        r == 10,
{
    10
}

/// The handshake timeout of a configuration that sets none, in seconds.
pub fn default_handshake_timeout() -> (r: u64)
    ensures
        r == 15,
{
    15
}

/// Why a program cannot start with its configuration.
#[derive(Debug)]
pub enum StartError {
    /// The obfuscation parameters are refused, with this complaint.
    Obfuscation(String),
    /// The server address is refused.
    ServerAddress(HostPortError),
}

/// The string slice in an optional string.
fn as_str_option(s: &Option<String>) -> (r: Option<&str>)
    ensures
        str_of(r) == text_of(*s),
{
    match s {
        Some(t) => Some(t.as_str()),
        None => None,
    }
}

/// Immutable runtime parameters of a client.
pub struct ClientRuntime {
    /// Remote server host.
    pub server_host: Host,
    /// Remote server port.
    pub server_port: u16,
    /// Obfuscation parameters shared with the server.
    pub server_key: ObfuscationKey,
    /// Connect and handshake timeout toward the server, in seconds.
    pub connect_timeout: u64,
    /// Most connections that may be active at once; no limit where unset.
    pub max_connections: Option<u64>,
}

impl ClientRuntime {
    /// Validates the configuration into runtime parameters.
    pub fn from_config(cfg: &ClientConfig) -> (r: Result<ClientRuntime, StartError>)
        ensures
            match cfg.server.obfuscation.complaint(text_of(cfg.password)) {
                Some(e) => r matches Err(StartError::Obfuscation(t)) && t@ == e,
                None => match host_port(cfg.server.address@) {
                    Err(e) => r == Err::<ClientRuntime, StartError>(StartError::ServerAddress(e)),
                    Ok((host, port)) => r matches Ok(rt) && rt.server_host@ == host && rt.server_port
                        == port && cfg.server.obfuscation.gives(
                        text_of(cfg.password),
                        rt.server_key,
                    ) && rt.server_key.valid() && rt.connect_timeout == cfg.server.connect_timeout
                        && rt.max_connections == cfg.max_connections,
                },
            },
    {
        let server_key: ObfuscationKey = match cfg.server.obfuscation.to_key(
            as_str_option(&cfg.password),
        ) {
            Ok(k) => k,
            Err(e) => return Err(StartError::Obfuscation(e)),
        };
        match parse_host_port(cfg.server.address.as_str()) {
            Ok((server_host, server_port)) => Ok(
                ClientRuntime {
                    server_host,
                    server_port,
                    server_key,
                    connect_timeout: cfg.server.connect_timeout,
                    max_connections: cfg.max_connections,
                },
            ),
            Err(e) => Err(StartError::ServerAddress(e)),
        }
    }
}

/// Immutable runtime parameters of a server.
pub struct ServerRuntime {
    /// Obfuscation and cipher parameters.
    pub key: ObfuscationKey,
    /// Server to target connect timeout, in seconds.
    pub connect_timeout: u64,
    /// Handshake timeout, in seconds.
    pub handshake_timeout: u64,
}

impl ServerRuntime {
    /// Validates the configuration into runtime parameters.
    pub fn from_config(cfg: &ServerConfig) -> (r: Result<ServerRuntime, StartError>)
        ensures
            match cfg.obfuscation.complaint(text_of(cfg.password)) {
                Some(e) => r matches Err(StartError::Obfuscation(t)) && t@ == e,
                None => r matches Ok(rt) && cfg.obfuscation.gives(text_of(cfg.password), rt.key)
                    && rt.key.valid() && rt.connect_timeout == cfg.connect_timeout
                    && rt.handshake_timeout == cfg.handshake_timeout,
            },
    {
        match cfg.obfuscation.to_key(as_str_option(&cfg.password)) {
            Ok(key) => Ok(
                ServerRuntime {
                    key,
                    connect_timeout: cfg.connect_timeout,
                    handshake_timeout: cfg.handshake_timeout,
                },
            ),
            Err(e) => Err(StartError::Obfuscation(e)),
        }
    }
}

} // verus!
