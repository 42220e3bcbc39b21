//! Packet codec: turns messages into wire packets and back.
//!
//! ```text
//! send:   plaintext
//!           -> transport cipher
//!           -> header (length under the protocol cipher, masked, shuffled)
//!           -> payload transform               (masked? shuffle? delta?)
//!           -> [ base94 envelope ]             (pre-handshake or plaintext)
//! receive: the exact inverse.
//! ```
//!
//! The state of each direction lives in a [`TxCore`] or an [`RxCore`]. Nothing
//! here touches a transport: sending gives the bytes to write, and receiving
//! takes the bytes that were read.

use crate::base94::law_encode_printable;
use crate::bytes::append;
use crate::config::ObfuscationKey;
use crate::crypto::cipher::{
    base32_digits, key_material, law_cipher_keeps_length, law_cipher_roundtrip, law_derivation,
    law_key_material_distinct, CipherModel, CipherRole, SessionCipher,
};
use crate::crypto::primitives::hkdf_sha256_48;
use crate::crypto::ssea::{
    delta_decoded, delta_encoded, masked, shuffled, unshuffled,
};
use crate::error::{Error, IoError, IoErrorKind};
use crate::frame::base94::{
    after_receive, after_send, body_decoded, cut_short, framed, header_decoded, is_printable,
    law_frame_roundtrip, law_stream_is_datagrams, law_tampered_first_frame_refused, packet_decoded,
    rx_header_len, stream_decoded, stream_rest, Base94Framer, FramerModel, StreamFrame,
};
use crate::frame::binary::{
    deobfuscated, header_decrypt, header_encrypt_with, header_encrypted, header_key, header_length,
    header_seed, law_deobfuscate_inverts_obfuscate, law_header_roundtrip, lemma_deobfuscated_len,
    obfuscated, payload_deobfuscate, payload_obfuscate, PayloadFlags, HEADER_SIZE,
};
use crate::handshake::{
    noise_high, noise_low, noise_packets, nop_rounds, pack_session_id, packed, PackDraws,
};
use crate::rng::{draw_any_u128, draw_any_u64, draw_u8};
use crate::stream::take_exact;
use crate::{SessionId, BASE94_MAX_FRAME, PPP_BUFFER_SIZE};
use rand::rngs::StdRng;
use vstd::prelude::*;
use vstd::slice::slice_subrange;
use vstd::utf8::encode_utf8;

verus! {

// ---------------------------------------------------------------------------
// Model
// ---------------------------------------------------------------------------

/// Data-plane switches in effect: before the handshake everything is on.
pub open spec fn flags_in_effect(key: ObfuscationKey, handshaked: bool) -> PayloadFlags {
    if handshaked {
        PayloadFlags { masked: key.masked, shuffle: key.shuffle_data, delta: key.delta_encode }
    } else {
        PayloadFlags { masked: true, shuffle: true, delta: true }
    }
}

/// Whether packets travel in the base94 envelope.
pub open spec fn enveloped(key: ObfuscationKey, handshaked: bool) -> bool {
    !handshaked || key.plaintext
}

/// A message: the payload, behind its tag where it has one.
pub open spec fn tagged(tag: Option<u8>, payload: Seq<u8>) -> Seq<u8> {
    match tag {
        Some(t) => seq![t] + payload,
        None => payload,
    }
}

/// What the random draws of one packet gave.
pub struct FrameDraws {
    /// The seed of the binary header.
    pub seed: u8,
    /// The first byte of the base94 header.
    pub k: u8,
    /// The filler of the base94 header.
    pub filler: u8,
}

impl FrameDraws {
    /// What every outcome of the draws satisfies.
    pub open spec fn possible(self) -> bool {
        self.seed >= 1 && is_printable(self.k) && is_printable(self.filler)
    }
}

/// What the sending direction holds.
pub struct TxModel {
    /// The configuration.
    pub key: ObfuscationKey,
    /// The envelope state.
    pub framer: FramerModel,
    /// The header cipher.
    pub protocol: CipherModel,
    /// The payload cipher.
    pub transport: CipherModel,
    /// Whether the handshake is over.
    pub handshaked: bool,
}

/// What the receiving direction holds.
pub struct RxModel {
    /// The configuration.
    pub key: ObfuscationKey,
    /// The envelope state.
    pub framer: FramerModel,
    /// The header cipher.
    pub protocol: CipherModel,
    /// The payload cipher.
    pub transport: CipherModel,
    /// Whether the handshake is over.
    pub handshaked: bool,
}

/// The header cipher of a configuration.
pub open spec fn protocol_cipher(key: ObfuscationKey, ivv: Option<u128>) -> CipherModel {
    CipherModel::derived(key.protocol, CipherRole::Protocol, key.protocol_key@, ivv)
}

/// The payload cipher of a configuration.
pub open spec fn transport_cipher(key: ObfuscationKey, ivv: Option<u128>) -> CipherModel {
    CipherModel::derived(key.transport, CipherRole::Transport, key.transport_key@, ivv)
}

impl TxModel {
    /// The state before anything was sent.
    pub open spec fn fresh(key: ObfuscationKey) -> TxModel {
        TxModel {
            key,
            framer: FramerModel { kf: key.kf, tx_first: true, rx_first: true },
            protocol: protocol_cipher(key, None),
            transport: transport_cipher(key, None),
            handshaked: false,
        }
    }

    /// The binary packet of a message.
    pub open spec fn sealed(self, seed: u8, msg: Seq<u8>) -> Seq<u8> {
        header_encrypted(self.key.kf, Some(self.protocol), seed, msg.len()) + obfuscated(
            self.transport.applied(msg),
            flags_in_effect(self.key, self.handshaked),
            header_key(self.key.kf, seed),
            self.key.kf,
        )
    }

    /// The wire packet of a message.
    pub open spec fn sent(self, d: FrameDraws, msg: Seq<u8>) -> Result<Seq<u8>, Error> {
        if msg.len() == 0 {
            Err(Error::ZeroLength)
        } else if msg.len() > PPP_BUFFER_SIZE {
            Err(Error::FrameTooLarge { len: msg.len() as usize })
        } else if enveloped(self.key, self.handshaked) {
            framed(self.framer, d.k, d.filler, self.sealed(d.seed, msg))
        } else {
            Ok(self.sealed(d.seed, msg))
        }
    }

    /// The state after sealing a message: each cipher has used up a nonce.
    pub open spec fn after_seal(self) -> TxModel {
        TxModel { protocol: self.protocol.next(), transport: self.transport.next(), ..self }
    }

    /// The state after sending a message.
    pub open spec fn after(self, d: FrameDraws, msg: Seq<u8>) -> TxModel {
        if msg.len() == 0 || msg.len() > PPP_BUFFER_SIZE {
            self
        } else if enveloped(self.key, self.handshaked) && self.sent(d, msg) is Ok {
            TxModel { framer: after_send(self.framer), ..self.after_seal() }
        } else {
            self.after_seal()
        }
    }

    /// The state after the handshake: fresh ciphers, data-plane framing.
    pub open spec fn established(self, ivv: u128) -> TxModel {
        TxModel {
            protocol: protocol_cipher(self.key, Some(ivv)),
            transport: transport_cipher(self.key, Some(ivv)),
            handshaked: true,
            ..self
        }
    }

    /// Both nonce counters have a value left.
    pub open spec fn ready(self) -> bool {
        self.protocol.seq < u64::MAX && self.transport.seq < u64::MAX
    }
}

/// What receiving gives: a message or an error.
pub enum Received {
    /// The stream ends inside the packet.
    Cut,
    /// The packet is refused.
    Refused(Error),
    /// The message, and how many bytes its packet has.
    Message(Seq<u8>, int),
}

impl RxModel {
    /// The state before anything was received.
    pub open spec fn fresh(key: ObfuscationKey) -> RxModel {
        RxModel {
            key,
            framer: FramerModel { kf: key.kf, tx_first: true, rx_first: true },
            protocol: protocol_cipher(key, None).decrypting(),
            transport: transport_cipher(key, None).decrypting(),
            handshaked: false,
        }
    }

    /// The payload length in the header of a binary packet.
    pub open spec fn announced(self, binary: Seq<u8>) -> nat {
        header_length(self.key.kf, Some(self.protocol), binary.take(3))
    }

    /// The message behind the body of a binary packet with the given header.
    pub open spec fn revealed(self, header: Seq<u8>, body: Seq<u8>) -> Seq<u8> {
        self.transport.applied(
            deobfuscated(
                body,
                flags_in_effect(self.key, self.handshaked),
                header_key(self.key.kf, header_seed(self.key.kf, header)),
                self.key.kf,
            ),
        )
    }

    /// The message of a whole binary packet; the length in the header has to
    /// match the packet.
    pub open spec fn opened(self, binary: Seq<u8>) -> Result<Seq<u8>, Error> {
        if binary.len() <= 3 || self.announced(binary) + 3 != binary.len() {
            Err(Error::InvalidFrame)
        } else {
            Ok(self.revealed(binary.take(3), binary.skip(3)))
        }
    }

    /// The state after opening a binary packet.
    pub open spec fn after_open(self, binary: Seq<u8>) -> RxModel {
        if binary.len() <= 3 {
            self
        } else if self.opened(binary) is Err {
            RxModel { protocol: self.protocol.next(), ..self }
        } else {
            RxModel { protocol: self.protocol.next(), transport: self.transport.next(), ..self }
        }
    }

    /// The state after an envelope was taken off.
    pub open spec fn after_envelope(self) -> RxModel {
        RxModel { framer: after_receive(self.framer), ..self }
    }

    /// The message of a wire packet in memory.
    pub open spec fn received(self, packet: Seq<u8>) -> Result<Seq<u8>, Error> {
        if enveloped(self.key, self.handshaked) {
            match packet_decoded(self.framer, packet) {
                Ok(binary) => self.after_envelope().opened(binary),
                Err(e) => Err(e),
            }
        } else {
            self.opened(packet)
        }
    }

    /// The state after receiving a wire packet in memory.
    pub open spec fn after(self, packet: Seq<u8>) -> RxModel {
        if enveloped(self.key, self.handshaked) {
            match packet_decoded(self.framer, packet) {
                Ok(binary) => self.after_envelope().after_open(binary),
                Err(e) => self,
            }
        } else {
            self.after_open(packet)
        }
    }

    /// The message at the front of a stream.
    pub open spec fn read(self, s: Seq<u8>) -> Received {
        if enveloped(self.key, self.handshaked) {
            match stream_decoded(self.framer, s) {
                StreamFrame::Cut => Received::Cut,
                StreamFrame::BadHeader(e) => Received::Refused(e),
                StreamFrame::BadBody(e) => Received::Refused(e),
                StreamFrame::Frame(binary, used) => match self.after_envelope().opened(binary) {
                    Ok(msg) => Received::Message(msg, used),
                    Err(e) => Received::Refused(e),
                },
            }
        } else if s.len() < 3 || s.len() < 3 + self.announced(s) {
            Received::Cut
        } else {
            let end: int = 3 + self.announced(s) as int;
            Received::Message(self.revealed(s.take(3), s.subrange(3, end)), end)
        }
    }

    /// What is left of a stream after reading a message off its front.
    pub open spec fn read_rest(self, s: Seq<u8>) -> Seq<u8> {
        if enveloped(self.key, self.handshaked) {
            stream_rest(self.framer, s)
        } else if s.len() < 3 || s.len() < 3 + self.announced(s) {
            Seq::empty()
        } else {
            s.skip(3 + self.announced(s) as int)
        }
    }

    /// The error for a stream that ends inside a packet.
    pub open spec fn cut_error(self, s: Seq<u8>, e: Error) -> bool {
        if enveloped(self.key, self.handshaked) || s.len() < 3 {
            cut_short(e)
        } else {
            e matches Error::Io(f) && f.kind == IoErrorKind::UnexpectedEof && f.message@
                == "truncated binary frame"@
        }
    }

    /// The state after reading the front of a stream.
    pub open spec fn after_read(self, s: Seq<u8>) -> RxModel {
        if enveloped(self.key, self.handshaked) {
            match stream_decoded(self.framer, s) {
                StreamFrame::Frame(binary, used) => self.after_envelope().after_open(binary),
                _ => self,
            }
        } else if s.len() < 3 {
            self
        } else if s.len() < 3 + self.announced(s) {
            RxModel { protocol: self.protocol.next(), ..self }
        } else {
            RxModel { protocol: self.protocol.next(), transport: self.transport.next(), ..self }
        }
    }

    /// The state after the handshake: fresh ciphers, data-plane framing.
    pub open spec fn established(self, ivv: u128) -> RxModel {
        RxModel {
            protocol: protocol_cipher(self.key, Some(ivv)).decrypting(),
            transport: transport_cipher(self.key, Some(ivv)).decrypting(),
            handshaked: true,
            ..self
        }
    }

    /// Both nonce counters have a value left.
    pub open spec fn ready(self) -> bool {
        self.protocol.seq < u64::MAX && self.transport.seq < u64::MAX
    }
}

/// Two endpoints have the same secrets: all that the handshake packets depend
/// on.
pub open spec fn same_secrets(a: ObfuscationKey, b: ObfuscationKey) -> bool {
    &&& a.kf == b.kf
    &&& a.protocol == b.protocol
    &&& a.transport == b.transport
    &&& a.protocol_key@ == b.protocol_key@
    &&& a.transport_key@ == b.transport_key@
}

/// Two endpoints have the same switches: how the packets behind the handshake
/// are transformed.
pub open spec fn same_switches(a: ObfuscationKey, b: ObfuscationKey) -> bool {
    &&& a.masked == b.masked
    &&& a.plaintext == b.plaintext
    &&& a.delta_encode == b.delta_encode
    &&& a.shuffle_data == b.shuffle_data
}

/// Two endpoints have the same configuration.
pub open spec fn same_key(a: ObfuscationKey, b: ObfuscationKey) -> bool {
    same_secrets(a, b) && same_switches(a, b)
}

/// A receiver is the mirror of a sender: it can read what the sender sends
/// next. The switches matter once the handshake is over.
pub open spec fn mirrors(tx: TxModel, rx: RxModel) -> bool {
    &&& same_secrets(tx.key, rx.key)
    &&& tx.handshaked ==> same_switches(tx.key, rx.key)
    &&& tx.framer.kf == rx.framer.kf
    &&& tx.framer.tx_first == rx.framer.rx_first
    &&& tx.protocol.encrypting
    &&& tx.transport.encrypting
    &&& rx.protocol == tx.protocol.decrypting()
    &&& rx.transport == tx.transport.decrypting()
    &&& tx.handshaked == rx.handshaked
}

// ---------------------------------------------------------------------------
// Laws
// ---------------------------------------------------------------------------

/// The receiver of a direction reads back every message that was sent, for
/// every outcome of the random draws: from the packet in memory, and off the
/// front of a stream, of which exactly the packet is consumed. Afterwards it
/// still mirrors the sender.
pub proof fn law_transmission_roundtrip(
    tx: TxModel,
    rx: RxModel,
    d: FrameDraws,
    msg: Seq<u8>,
    rest: Seq<u8>,
)
    requires
        mirrors(tx, rx),
        d.possible(),
    ensures
        tx.sent(d, msg) matches Ok(packet) ==> {
            &&& rx.received(packet) == Ok::<Seq<u8>, Error>(msg)
            &&& mirrors(tx.after(d, msg), rx.after(packet))
            &&& rx.read(packet + rest) == Received::Message(msg, packet.len() as int)
            &&& mirrors(tx.after(d, msg), rx.after_read(packet + rest))
        },
{
    if tx.sent(d, msg) is Ok {
        let packet: Seq<u8> = tx.sent(d, msg)->Ok_0;
        let binary: Seq<u8> = tx.sealed(d.seed, msg);
        lemma_open_sealed(tx, rx, d.seed, msg);
        let s: Seq<u8> = packet + rest;
        if enveloped(tx.key, tx.handshaked) {
            law_frame_roundtrip(tx.framer, rx.framer, d.k, d.filler, binary, rest);
            lemma_open_sealed(tx, rx.after_envelope(), d.seed, msg);
        } else {
            assert(s.take(3) =~= binary.take(3));
            assert(s.subrange(3, binary.len() as int) =~= binary.skip(3));
        }
    }
}

proof fn lemma_open_sealed(tx: TxModel, rx: RxModel, seed: u8, msg: Seq<u8>)
    requires
        same_secrets(tx.key, rx.key),
        tx.handshaked ==> same_switches(tx.key, rx.key),
        tx.protocol.encrypting,
        tx.transport.encrypting,
        rx.protocol == tx.protocol.decrypting(),
        rx.transport == tx.transport.decrypting(),
        tx.handshaked == rx.handshaked,
        1 <= msg.len() <= PPP_BUFFER_SIZE,
    ensures
        tx.sealed(seed, msg).len() == msg.len() + 3,
        rx.announced(tx.sealed(seed, msg)) == msg.len(),
        rx.revealed(tx.sealed(seed, msg).take(3), tx.sealed(seed, msg).skip(3)) == msg,
        rx.opened(tx.sealed(seed, msg)) == Ok::<Seq<u8>, Error>(msg),
{
    let kf: u32 = tx.key.kf;
    let flags: PayloadFlags = flags_in_effect(tx.key, tx.handshaked);
    let key: u32 = header_key(kf, seed);
    let binary: Seq<u8> = tx.sealed(seed, msg);
    let hidden: Seq<u8> = tx.transport.applied(msg);
    law_header_roundtrip(kf, Some(tx.protocol), seed, msg.len());
    law_cipher_roundtrip(tx.transport, msg);
    law_cipher_roundtrip(tx.protocol, msg);
    law_deobfuscate_inverts_obfuscate(hidden, flags, key, kf);
    assert(binary.take(3) =~= header_encrypted(kf, Some(tx.protocol), seed, msg.len()));
    assert(binary.skip(3) =~= obfuscated(hidden, flags, key, kf));
}

/// The wire bytes of messages sent one after the other; none where one of them
/// fails.
pub open spec fn wire_of(tx: TxModel, msgs: Seq<(FrameDraws, Seq<u8>)>) -> Option<Seq<u8>>
    decreases msgs.len(),
{
    if msgs.len() == 0 {
        Some(Seq::empty())
    } else {
        match tx.sent(msgs[0].0, msgs[0].1) {
            Ok(packet) => match wire_of(tx.after(msgs[0].0, msgs[0].1), msgs.skip(1)) {
                Some(rest) => Some(packet + rest),
                None => None,
            },
            Err(e) => None,
        }
    }
}

/// The sending state after messages sent one after the other.
pub open spec fn after_wire(tx: TxModel, msgs: Seq<(FrameDraws, Seq<u8>)>) -> TxModel
    decreases msgs.len(),
{
    if msgs.len() == 0 {
        tx
    } else {
        after_wire(tx.after(msgs[0].0, msgs[0].1), msgs.skip(1))
    }
}

/// Sending one more message appends its packet.
pub proof fn lemma_wire_push(
    tx: TxModel,
    msgs: Seq<(FrameDraws, Seq<u8>)>,
    last: (FrameDraws, Seq<u8>),
)
    ensures
        after_wire(tx, msgs.push(last)) == after_wire(tx, msgs).after(last.0, last.1),
        wire_of(tx, msgs.push(last)) == match wire_of(tx, msgs) {
            Some(wire) => match after_wire(tx, msgs).sent(last.0, last.1) {
                Ok(packet) => Some(wire + packet),
                Err(e) => None,
            },
            None => None::<Seq<u8>>,
        },
    decreases msgs.len(),
{
    let all: Seq<(FrameDraws, Seq<u8>)> = msgs.push(last);
    reveal_with_fuel(wire_of, 2);
    reveal_with_fuel(after_wire, 2);
    if msgs.len() == 0 {
        assert(all.skip(1) =~= Seq::<(FrameDraws, Seq<u8>)>::empty());
        if tx.sent(last.0, last.1) is Ok {
            let packet: Seq<u8> = tx.sent(last.0, last.1)->Ok_0;
            assert(packet + Seq::<u8>::empty() =~= Seq::<u8>::empty() + packet);
        }
    } else {
        let next: TxModel = tx.after(msgs[0].0, msgs[0].1);
        assert(all.skip(1) =~= msgs.skip(1).push(last));
        lemma_wire_push(next, msgs.skip(1), last);
        if tx.sent(msgs[0].0, msgs[0].1) is Ok && wire_of(next, msgs.skip(1)) is Some {
            let end: TxModel = after_wire(next, msgs.skip(1));
            if end.sent(last.0, last.1) is Ok {
                let head: Seq<u8> = tx.sent(msgs[0].0, msgs[0].1)->Ok_0;
                let mid: Seq<u8> = wire_of(next, msgs.skip(1))->Some_0;
                let packet: Seq<u8> = end.sent(last.0, last.1)->Ok_0;
                assert(head + (mid + packet) =~= (head + mid) + packet);
            }
        }
    }
}

/// The first `n` messages of a stream and what is left of it; none where one
/// of them cannot be read.
pub open spec fn messages_of(rx: RxModel, s: Seq<u8>, n: nat) -> Option<(Seq<Seq<u8>>, Seq<u8>)>
    decreases n,
{
    if n == 0 {
        Some((Seq::empty(), s))
    } else {
        match rx.read(s) {
            Received::Message(msg, used) => match messages_of(
                rx.after_read(s),
                s.skip(used),
                (n - 1) as nat,
            ) {
                Some((rest, left)) => Some((seq![msg] + rest, left)),
                None => None,
            },
            _ => None,
        }
    }
}

/// A stream delivers: however many messages were sent one after the other, the
/// receiver reads exactly these, in order, and then stands before whatever
/// follows them.
pub proof fn law_stream_delivers_in_order(
    tx: TxModel,
    rx: RxModel,
    msgs: Seq<(FrameDraws, Seq<u8>)>,
    rest: Seq<u8>,
)
    requires
        mirrors(tx, rx),
        forall|i: int| 0 <= i < msgs.len() ==> (#[trigger] msgs[i]).0.possible(),
    ensures
        wire_of(tx, msgs) matches Some(wire) ==> messages_of(rx, wire + rest, msgs.len()) == Some(
            (Seq::new(msgs.len(), |i: int| msgs[i].1), rest),
        ),
    decreases msgs.len(),
{
    if wire_of(tx, msgs) is Some {
        let s: Seq<u8> = wire_of(tx, msgs)->Some_0 + rest;
        let all: Seq<Seq<u8>> = Seq::new(msgs.len(), |i: int| msgs[i].1);
        if msgs.len() == 0 {
            assert(s =~= rest);
            assert(all =~= Seq::<Seq<u8>>::empty());
        } else {
            let later: Seq<(FrameDraws, Seq<u8>)> = msgs.skip(1);
            let next: TxModel = tx.after(msgs[0].0, msgs[0].1);
            assert(msgs[0].0.possible());
            let used: int = lemma_first_message(tx, rx, msgs, rest);
            assert forall|i: int| 0 <= i < later.len() implies (#[trigger] later[i]).0.possible() by {
                assert(later[i] == msgs[i + 1]);
            }
            law_stream_delivers_in_order(next, rx.after_read(s), later, rest);
            let texts: Seq<Seq<u8>> = Seq::new(later.len(), |i: int| later[i].1);
            lemma_messages_step(rx, s, msgs.len(), msgs[0].1, used, texts, rest);
            assert(seq![msgs[0].1] + texts =~= all);
        }
    }
}

proof fn lemma_first_message(
    tx: TxModel,
    rx: RxModel,
    msgs: Seq<(FrameDraws, Seq<u8>)>,
    rest: Seq<u8>,
) -> (used: int)
    requires
        mirrors(tx, rx),
        msgs.len() > 0,
        msgs[0].0.possible(),
        wire_of(tx, msgs) is Some,
    ensures
        rx.read(wire_of(tx, msgs)->Some_0 + rest) == Received::Message(msgs[0].1, used),
        wire_of(tx.after(msgs[0].0, msgs[0].1), msgs.skip(1)) is Some,
        (wire_of(tx, msgs)->Some_0 + rest).skip(used) == wire_of(
            tx.after(msgs[0].0, msgs[0].1),
            msgs.skip(1),
        )->Some_0 + rest,
        mirrors(
            tx.after(msgs[0].0, msgs[0].1),
            rx.after_read(wire_of(tx, msgs)->Some_0 + rest),
        ),
{
    let d: FrameDraws = msgs[0].0;
    let msg: Seq<u8> = msgs[0].1;
    let packet: Seq<u8> = tx.sent(d, msg)->Ok_0;
    let tail: Seq<u8> = wire_of(tx.after(d, msg), msgs.skip(1))->Some_0;
    let s: Seq<u8> = wire_of(tx, msgs)->Some_0 + rest;
    assert(s =~= packet + (tail + rest));
    law_transmission_roundtrip(tx, rx, d, msg, tail + rest);
    assert(s.skip(packet.len() as int) =~= tail + rest);
    packet.len() as int
}

proof fn lemma_messages_step(
    rx: RxModel,
    s: Seq<u8>,
    n: nat,
    msg: Seq<u8>,
    used: int,
    later: Seq<Seq<u8>>,
    left: Seq<u8>,
)
    requires
        n > 0,
        rx.read(s) == Received::Message(msg, used),
        messages_of(rx.after_read(s), s.skip(used), (n - 1) as nat) == Some((later, left)),
    ensures
        messages_of(rx, s, n) == Some((seq![msg] + later, left)),
{
}

/// Before the handshake, and after it in `plaintext` mode, everything on the
/// wire is printable.
pub proof fn law_enveloped_traffic_printable(tx: TxModel, d: FrameDraws, msg: Seq<u8>)
    requires
        d.possible(),
        enveloped(tx.key, tx.handshaked),
    ensures
        tx.sent(d, msg) matches Ok(packet) ==> crate::base94::printable(packet),
{
    crate::frame::base94::law_frame_printable(
        tx.framer,
        d.k,
        d.filler,
        tx.sealed(d.seed, msg),
    );
}

/// A binary packet is refused when it is longer or shorter than its header
/// announces: nothing may be cut off or appended.
pub proof fn law_binary_length_exact(
    tx: TxModel,
    rx: RxModel,
    seed: u8,
    msg: Seq<u8>,
    other: Seq<u8>,
)
    requires
        mirrors(tx, rx),
        1 <= msg.len() <= PPP_BUFFER_SIZE,
        other.len() != tx.sealed(seed, msg).len(),
        other.len() >= 3 ==> other.take(3) == tx.sealed(seed, msg).take(3),
    ensures
        rx.opened(other) == Err::<Seq<u8>, Error>(Error::InvalidFrame),
{
    lemma_open_sealed(tx, rx, seed, msg);
}

/// The first packet of a direction is refused when the low bit of one of its
/// guard bytes is flipped, and the receiver goes on waiting for a first packet.
pub proof fn law_tampered_first_packet_refused(
    tx: TxModel,
    rx: RxModel,
    d: FrameDraws,
    msg: Seq<u8>,
    rest: Seq<u8>,
    i: int,
)
    requires
        mirrors(tx, rx),
        d.possible(),
        enveloped(tx.key, tx.handshaked),
        tx.framer.tx_first,
        4 <= i < 7,
    ensures
        tx.sent(d, msg) matches Ok(packet) ==> {
            let bad: Seq<u8> = packet.update(i, packet[i] ^ 1u8);
            &&& rx.received(bad) == Err::<Seq<u8>, Error>(Error::ChecksumMismatch)
            &&& rx.after(bad) == rx
            &&& rx.read(bad + rest) == Received::Refused(Error::ChecksumMismatch)
            &&& rx.after_read(bad + rest) == rx
            &&& rx.framer.rx_first
        },
{
    law_tampered_first_frame_refused(
        tx.framer,
        rx.framer,
        d.k,
        d.filler,
        tx.sealed(d.seed, msg),
        rest,
        i,
    );
}

/// Once the handshake is over, the payload of a packet is the ciphertext of the
/// message under exactly the transforms that the configuration switches on:
/// the mask, then the shuffle, then the delta. Before that, all three are on.
pub proof fn law_switches_choose_transforms(tx: TxModel, seed: u8, msg: Seq<u8>)
    requires
        1 <= msg.len() <= PPP_BUFFER_SIZE,
        tx.protocol.encrypting,
    ensures
        ({
            let ciphertext: Seq<u8> = tx.transport.applied(msg);
            let key: u32 = tx.key.kf ^ (seed as u32);
            let a: Seq<u8> = if tx.key.masked || !tx.handshaked {
                masked(ciphertext, key)
            } else {
                ciphertext
            };
            let b: Seq<u8> = if tx.key.shuffle_data || !tx.handshaked {
                shuffled(a, key)
            } else {
                a
            };
            let c: Seq<u8> = if tx.key.delta_encode || !tx.handshaked {
                delta_encoded(b, tx.key.kf)
            } else {
                b
            };
            tx.sealed(seed, msg).skip(3) == c
        }),
{
    law_header_roundtrip(tx.key.kf, Some(tx.protocol), seed, msg.len());
    let header: Seq<u8> = header_encrypted(tx.key.kf, Some(tx.protocol), seed, msg.len());
    let body: Seq<u8> = obfuscated(
        tx.transport.applied(msg),
        flags_in_effect(tx.key, tx.handshaked),
        header_key(tx.key.kf, seed),
        tx.key.kf,
    );
    assert((header + body).skip(3) =~= body);
}

/// A receiver takes off exactly the transforms that its own configuration
/// switches on, the delta first and the mask last, and then decrypts; before
/// the handshake is over, all three.
pub proof fn law_switches_choose_inverses(rx: RxModel, header: Seq<u8>, body: Seq<u8>)
    ensures
        ({
            let key: u32 = rx.key.kf ^ (delta_decoded(header, rx.key.kf)[0] as u32);
            let a: Seq<u8> = if rx.key.delta_encode || !rx.handshaked {
                delta_decoded(body, rx.key.kf)
            } else {
                body
            };
            let b: Seq<u8> = if rx.key.shuffle_data || !rx.handshaked {
                unshuffled(a, key)
            } else {
                a
            };
            let c: Seq<u8> = if rx.key.masked || !rx.handshaked {
                masked(b, key)
            } else {
                b
            };
            rx.revealed(header, body) == rx.transport.applied(c)
        }),
{
}

/// After a handshake with key material `v`, the ciphers of both directions hold
/// the key and the base IV that HKDF gives for the salt of their layer and the
/// password followed by a plus sign and the base32 digits of `v`.
pub proof fn law_session_keys(tx: TxModel, rx: RxModel, v: u128)
    requires
        v > 0,
    ensures
        ({
            let t: TxModel = tx.established(v);
            let r: RxModel = rx.established(v);
            let info: Seq<u8> = encode_utf8("nextppp-session-key"@);
            let tp: Seq<u8> = hkdf_sha256_48(
                encode_utf8("nextppp/"@ + "protocol"@ + "/"@ + tx.key.protocol.name_text()),
                encode_utf8(tx.key.protocol_key@) + seq![0x2bu8] + base32_digits(v as nat),
                info,
            );
            let tt: Seq<u8> = hkdf_sha256_48(
                encode_utf8("nextppp/"@ + "transport"@ + "/"@ + tx.key.transport.name_text()),
                encode_utf8(tx.key.transport_key@) + seq![0x2bu8] + base32_digits(v as nat),
                info,
            );
            let rp: Seq<u8> = hkdf_sha256_48(
                encode_utf8("nextppp/"@ + "protocol"@ + "/"@ + rx.key.protocol.name_text()),
                encode_utf8(rx.key.protocol_key@) + seq![0x2bu8] + base32_digits(v as nat),
                info,
            );
            let rt: Seq<u8> = hkdf_sha256_48(
                encode_utf8("nextppp/"@ + "transport"@ + "/"@ + rx.key.transport.name_text()),
                encode_utf8(rx.key.transport_key@) + seq![0x2bu8] + base32_digits(v as nat),
                info,
            );
            &&& t.protocol.key == tp.subrange(0, 32) && t.protocol.base_iv == tp.subrange(32, 48)
            &&& t.transport.key == tt.subrange(0, 32) && t.transport.base_iv == tt.subrange(32, 48)
            &&& r.protocol.key == rp.subrange(0, 32) && r.protocol.base_iv == rp.subrange(32, 48)
            &&& r.transport.key == rt.subrange(0, 32) && r.transport.base_iv == rt.subrange(32, 48)
            &&& t.protocol.method == tx.key.protocol && t.transport.method == tx.key.transport
            &&& r.protocol.method == rx.key.protocol && r.transport.method == rx.key.transport
            &&& t.protocol.seq == 0 && t.transport.seq == 0 && r.protocol.seq == 0
                && r.transport.seq == 0
            &&& t.protocol.encrypting && t.transport.encrypting && !r.protocol.encrypting
                && !r.transport.encrypting
            &&& t.handshaked && r.handshaked
            &&& t.key == tx.key && r.key == rx.key && t.framer == tx.framer && r.framer == rx.framer
        }),
{
    law_derivation(tx.key.protocol, CipherRole::Protocol, tx.key.protocol_key@, v);
    law_derivation(tx.key.transport, CipherRole::Transport, tx.key.transport_key@, v);
    law_derivation(rx.key.protocol, CipherRole::Protocol, rx.key.protocol_key@, v);
    law_derivation(rx.key.transport, CipherRole::Transport, rx.key.transport_key@, v);
}

/// The keys of a connection are its own: two handshakes with different key
/// material feed the derivation of every cipher different input, and neither
/// feeds it what it was fed before the handshake.
pub proof fn law_rekeying(key: ObfuscationKey, v: u128, w: u128)
    requires
        v != w,
    ensures
        key_material(key.protocol_key@, Some(v)) != key_material(key.protocol_key@, Some(w)),
        key_material(key.transport_key@, Some(v)) != key_material(key.transport_key@, Some(w)),
        key_material(key.protocol_key@, Some(v)) != key_material(key.protocol_key@, None),
        key_material(key.transport_key@, Some(v)) != key_material(key.transport_key@, None),
{
    law_key_material_distinct(key.protocol_key@, v, w);
    law_key_material_distinct(key.transport_key@, v, w);
}

/// Before the handshake, the ciphers of both directions hold what HKDF gives
/// for the salt of their layer and the password alone, nothing has been sent,
/// and nothing has been received.
pub proof fn law_fresh_state(key: ObfuscationKey)
    ensures
        ({
            let t: TxModel = TxModel::fresh(key);
            let r: RxModel = RxModel::fresh(key);
            let info: Seq<u8> = encode_utf8("nextppp-session-key"@);
            let p: Seq<u8> = hkdf_sha256_48(
                encode_utf8("nextppp/"@ + "protocol"@ + "/"@ + key.protocol.name_text()),
                encode_utf8(key.protocol_key@),
                info,
            );
            let q: Seq<u8> = hkdf_sha256_48(
                encode_utf8("nextppp/"@ + "transport"@ + "/"@ + key.transport.name_text()),
                encode_utf8(key.transport_key@),
                info,
            );
            &&& t.protocol.key == p.subrange(0, 32) && t.protocol.base_iv == p.subrange(32, 48)
            &&& t.transport.key == q.subrange(0, 32) && t.transport.base_iv == q.subrange(32, 48)
            &&& r.protocol == t.protocol.decrypting() && r.transport == t.transport.decrypting()
            &&& t.protocol.method == key.protocol && t.transport.method == key.transport
            &&& t.protocol.seq == 0 && t.transport.seq == 0
            &&& t.protocol.encrypting && t.transport.encrypting
            &&& t.key == key && r.key == key && !t.handshaked && !r.handshaked
            &&& t.framer.kf == key.kf && r.framer.kf == key.kf && t.framer.tx_first
                && r.framer.rx_first
        }),
{
    law_derivation(key.protocol, CipherRole::Protocol, key.protocol_key@, 0);
    law_derivation(key.transport, CipherRole::Transport, key.transport_key@, 0);
}

/// Messages of 1 to 65536 bytes can be sent; an empty or a longer one is refused
/// with nothing used up.
pub proof fn law_message_sizes(tx: TxModel, d: FrameDraws, msg: Seq<u8>)
    ensures
        msg.len() == 0 ==> tx.sent(d, msg) == Err::<Seq<u8>, Error>(Error::ZeroLength) && tx.after(
            d,
            msg,
        ) == tx,
        msg.len() > 65_536 ==> tx.sent(d, msg) == Err::<Seq<u8>, Error>(
            Error::FrameTooLarge { len: msg.len() as usize },
        ) && tx.after(d, msg) == tx,
        1 <= msg.len() <= 65_536 && tx.handshaked && !tx.key.plaintext ==> tx.sent(d, msg) is Ok,
{
}

/// Every message that is sent uses up one nonce of the header cipher and one of
/// the payload cipher, and so does every message that is received; neither
/// changes anything else but that the first packet of the direction is past.
pub proof fn law_nonces_used_up(
    tx: TxModel,
    rx: RxModel,
    d: FrameDraws,
    msg: Seq<u8>,
    packet: Seq<u8>,
)
    requires
        1 <= msg.len() <= PPP_BUFFER_SIZE,
    ensures
        tx.after(d, msg).protocol.seq == tx.protocol.seq + 1,
        tx.after(d, msg).transport.seq == tx.transport.seq + 1,
        tx.after(d, msg).protocol == tx.protocol.at(tx.protocol.seq + 1),
        tx.after(d, msg).transport == tx.transport.at(tx.transport.seq + 1),
        tx.after(d, msg).key == tx.key && tx.after(d, msg).handshaked == tx.handshaked,
        tx.sent(d, msg) is Ok && (!tx.handshaked || tx.key.plaintext) ==> !tx.after(
            d,
            msg,
        ).framer.tx_first,
        rx.received(packet) is Ok ==> rx.after(packet).protocol == rx.protocol.at(
            rx.protocol.seq + 1,
        ) && rx.after(packet).transport == rx.transport.at(rx.transport.seq + 1) && rx.after(
            packet,
        ).key == rx.key && rx.after(packet).handshaked == rx.handshaked,
        rx.received(packet) is Ok && (!rx.handshaked || rx.key.plaintext) ==> !rx.after(
            packet,
        ).framer.rx_first,
        rx.read(packet) is Message ==> rx.after_read(packet).protocol == rx.protocol.at(
            rx.protocol.seq + 1,
        ) && rx.after_read(packet).transport == rx.transport.at(rx.transport.seq + 1)
            && rx.after_read(packet).key == rx.key && rx.after_read(packet).handshaked
            == rx.handshaked,
{
}

/// On the wire: after the handshake, with the printable shell switched off, a
/// packet is three bytes longer than its message. In all other cases it is
/// printable, and behind its header of seven characters, or four after the
/// first packet, stands the base94 text of the binary packet.
pub proof fn law_wire_form(tx: TxModel, d: FrameDraws, msg: Seq<u8>)
    requires
        d.possible(),
        tx.protocol.encrypting,
        tx.transport.encrypting,
    ensures
        tx.sent(d, msg) matches Ok(packet) ==> {
            &&& tx.handshaked && !tx.key.plaintext ==> packet == tx.sealed(d.seed, msg)
                && packet.len() == msg.len() + 3
            &&& !tx.handshaked || tx.key.plaintext ==> {
                let h: int = if tx.framer.tx_first {
                    7
                } else {
                    4
                };
                &&& forall|i: int| 0 <= i < packet.len() ==> 0x20 <= #[trigger] packet[i] <= 0x7e
                &&& packet.skip(h) == crate::base94::encoded(tx.sealed(d.seed, msg), tx.framer.kf)
                &&& crate::base94::decoded(packet.skip(h), tx.framer.kf) == Some(
                    tx.sealed(d.seed, msg),
                )
            }
        },
{
    if tx.sent(d, msg) is Ok {
        let packet: Seq<u8> = tx.sent(d, msg)->Ok_0;
        let binary: Seq<u8> = tx.sealed(d.seed, msg);
        law_header_roundtrip(tx.key.kf, Some(tx.protocol), d.seed, msg.len());
        law_cipher_roundtrip(tx.transport, msg);
        law_deobfuscate_inverts_obfuscate(
            tx.transport.applied(msg),
            flags_in_effect(tx.key, tx.handshaked),
            header_key(tx.key.kf, d.seed),
            tx.key.kf,
        );
        if !tx.handshaked || tx.key.plaintext {
            law_enveloped_traffic_printable(tx, d, msg);
            crate::frame::base94::law_frame_printable(tx.framer, d.k, d.filler, binary);
            crate::base94::law_decode_inverts_encode(binary, tx.framer.kf);
            let body: Seq<u8> = crate::base94::encoded(binary, tx.framer.kf);
            let h: int = packet.len() - body.len();
            assert(packet.skip(h) =~= body);
        }
    }
}

/// A tagged message is the tag and then the payload.
pub proof fn law_tagged(tag: u8, payload: Seq<u8>)
    ensures
        tagged(Some(tag), payload).len() == payload.len() + 1,
        tagged(Some(tag), payload)[0] == tag,
        tagged(Some(tag), payload).skip(1) == payload,
        tagged(None, payload) == payload,
{
    assert(tagged(Some(tag), payload).skip(1) =~= payload);
}

/// A message off a stream is the message of the same bytes as one packet, and
/// leaves the same state; what follows them stays. One byte less and the stream
/// is cut. A binary packet is cut exactly where fewer bytes follow its three
/// header bytes than these announce.
pub proof fn law_stream_is_packets(rx: RxModel, s: Seq<u8>, n: int)
    requires
        0 <= n <= s.len(),
    ensures
        rx.read(s) matches Received::Message(msg, used) ==> {
            &&& head_size(rx) < used <= s.len()
            &&& rx.received(s.take(used)) == Ok::<Seq<u8>, Error>(msg)
            &&& rx.after_read(s) == rx.after(s.take(used))
            &&& rx.read_rest(s) == s.skip(used)
            &&& n < used ==> rx.read(s.take(n)) is Cut
        },
        rx.read(s) is Cut ==> rx.read_rest(s) == Seq::<u8>::empty(),
        !enveloped(rx.key, rx.handshaked) ==> (rx.read(s) is Cut <==> s.len() < 3 || s.len() - 3
            < rx.announced(s)) && !(rx.read(s) is Refused),
        head_size(rx) == if !enveloped(rx.key, rx.handshaked) {
            3int
        } else if rx.framer.rx_first {
            7int
        } else {
            4int
        },
{
    if enveloped(rx.key, rx.handshaked) {
        law_stream_is_datagrams(rx.framer, s, n);
    } else if s.len() >= 3 {
        lemma_opened_len(rx, s);
        if n >= 3 {
            assert(s.take(n).take(3) =~= s.take(3));
        }
        if let Received::Message(msg, used) = rx.read(s) {
            let packet: Seq<u8> = s.take(used);
            assert(packet.take(3) =~= s.take(3));
            assert(packet.skip(3) =~= s.subrange(3, used));
        }
    }
}

/// Every message that comes out of a packet has at least one byte and fits in a
/// frame, however the packet came about.
pub proof fn law_messages_nonempty(rx: RxModel, packet: Seq<u8>)
    ensures
        rx.received(packet) matches Ok(msg) ==> 1 <= msg.len() <= PPP_BUFFER_SIZE,
        rx.read(packet) matches Received::Message(msg, used) ==> 1 <= msg.len() <= PPP_BUFFER_SIZE,
{
    if enveloped(rx.key, rx.handshaked) {
        if packet_decoded(rx.framer, packet) is Ok {
            lemma_opened_len(rx.after_envelope(), packet_decoded(rx.framer, packet)->Ok_0);
        }
        if let StreamFrame::Frame(binary, used) = stream_decoded(rx.framer, packet) {
            lemma_opened_len(rx.after_envelope(), binary);
        }
    } else {
        lemma_opened_len(rx, packet);
        if let Received::Message(msg, used) = rx.read(packet) {
            lemma_revealed_len(rx, packet.take(3), packet.subrange(3, used));
        }
    }
}

proof fn lemma_revealed_len(rx: RxModel, header: Seq<u8>, body: Seq<u8>)
    ensures
        rx.revealed(header, body).len() == body.len(),
{
    let flags: PayloadFlags = flags_in_effect(rx.key, rx.handshaked);
    let key: u32 = header_key(rx.key.kf, header_seed(rx.key.kf, header));
    lemma_deobfuscated_len(body, flags, key, rx.key.kf);
    law_cipher_keeps_length(rx.transport, deobfuscated(body, flags, key, rx.key.kf));
}

proof fn lemma_opened_len(rx: RxModel, binary: Seq<u8>)
    ensures
        1 <= rx.announced(binary) <= PPP_BUFFER_SIZE,
        rx.opened(binary) matches Ok(msg) ==> msg.len() == rx.announced(binary),
{
    if rx.opened(binary) is Ok {
        lemma_revealed_len(rx, binary.take(3), binary.skip(3));
    }
}

/// Sending never fails but for an empty or oversized message, or in the first
/// packet of a direction, whose header may have no guard number of three
/// digits.
pub proof fn law_send_succeeds(tx: TxModel, d: FrameDraws, msg: Seq<u8>)
    requires
        1 <= msg.len() <= PPP_BUFFER_SIZE,
        !tx.framer.tx_first || !enveloped(tx.key, tx.handshaked),
        tx.protocol.encrypting,
        tx.transport.encrypting,
    ensures
        tx.sent(d, msg) is Ok,
{
    let binary: Seq<u8> = tx.sealed(d.seed, msg);
    law_header_roundtrip(tx.key.kf, Some(tx.protocol), d.seed, msg.len());
    law_cipher_roundtrip(tx.transport, msg);
    law_deobfuscate_inverts_obfuscate(
        tx.transport.applied(msg),
        flags_in_effect(tx.key, tx.handshaked),
        header_key(tx.key.kf, d.seed),
        tx.key.kf,
    );
    law_encode_printable(binary, tx.framer.kf);
}

/// Two endpoints with the same secrets mirror each other before the handshake,
/// whatever their switches are.
pub proof fn law_fresh_endpoints_mirror(a: ObfuscationKey, b: ObfuscationKey)
    requires
        same_secrets(a, b),
    ensures
        mirrors(TxModel::fresh(a), RxModel::fresh(b)),
{
}

/// After a handshake with a common `ivv`, a direction whose ends mirrored each
/// other and have the same switches mirrors again, under the new keys.
pub proof fn law_established_endpoints_mirror(tx: TxModel, rx: RxModel, ivv: u128)
    requires
        mirrors(tx, rx),
        same_switches(tx.key, rx.key),
    ensures
        mirrors(tx.established(ivv), rx.established(ivv)),
        tx.established(ivv).protocol.seq == 0,
        tx.established(ivv).transport.seq == 0,
{
}

// ---------------------------------------------------------------------------
// The sending direction
// ---------------------------------------------------------------------------

/// Data-plane switches in effect.
fn effective_flags(key: &ObfuscationKey, handshaked: bool) -> (r: PayloadFlags)
    ensures
        r == flags_in_effect(*key, handshaked),
{
    if handshaked {
        PayloadFlags { masked: key.masked, shuffle: key.shuffle_data, delta: key.delta_encode }
    } else {
        PayloadFlags::safest()
    }
}

/// State of the sending direction: everything needed to turn plaintext into
/// wire packets.
pub struct TxCore {
    rng: StdRng,
    key: ObfuscationKey,
    b94: Base94Framer,
    protocol_tx: SessionCipher,
    transport_tx: SessionCipher,
    handshaked: bool,
}

impl View for TxCore {
    type V = TxModel;

    closed spec fn view(&self) -> TxModel {
        TxModel {
            key: self.key,
            framer: self.b94@,
            protocol: self.protocol_tx@,
            transport: self.transport_tx@,
            handshaked: self.handshaked,
        }
    }
}

impl TxCore {
    /// The state before anything was sent.
    pub fn new(key: ObfuscationKey, rng: StdRng) -> (r: TxCore)
        ensures
            r@ == TxModel::fresh(key),
    {
        let b94: Base94Framer = Base94Framer::new(key.kf);
        let protocol_tx: SessionCipher = SessionCipher::new(
            key.protocol,
            CipherRole::Protocol,
            key.protocol_key.as_str(),
        );
        let transport_tx: SessionCipher = SessionCipher::new(
            key.transport,
            CipherRole::Transport,
            key.transport_key.as_str(),
        );
        TxCore { rng, key, b94, protocol_tx, transport_tx, handshaked: false }
    }

    /// Whether both nonce counters have a value left.
    pub fn can_send(&self) -> (r: bool)
        ensures
            r == self@.ready(),
    {
        self.protocol_tx.sequence() < u64::MAX && self.transport_tx.sequence() < u64::MAX
    }

    /// Whether both nonce counters have room for `n` more packets.
    pub fn has_room(&self, n: u64) -> (r: bool)
        ensures
            r == (self@.protocol.seq + n <= u64::MAX && self@.transport.seq + n <= u64::MAX),
    {
        self.protocol_tx.sequence() <= u64::MAX - n && self.transport_tx.sequence() <= u64::MAX - n
    }

    /// Whether the handshake is over.
    pub fn is_handshaked(&self) -> (r: bool)
        ensures
            r == self@.handshaked,
    {
        self.handshaked
    }

    /// The configuration.
    pub fn key(&self) -> (r: &ObfuscationKey)
        ensures
            *r == self@.key,
    {
        &self.key
    }

    /// Packs a session-id packet with this direction's generator.
    pub(crate) fn pack_id(&mut self, id: SessionId) -> (r: Vec<u8>)
        ensures
            final(self)@ == old(self)@,
            exists|d: PackDraws| #[trigger]
                d.possible(old(self)@.key, id) && r@ == packed(old(self)@.key, id, d),
            5 <= r@.len() <= 3000,
    {
        pack_session_id(&mut self.rng, &self.key, id)
    }

    /// Draws the number of noise packets of the prelude.
    pub(crate) fn draw_rounds(&mut self) -> (r: u32)
        requires
            old(self)@.key.kl < 32,
            old(self)@.key.kh < 32,
        ensures
            final(self)@ == old(self)@,
            exists|volume: nat|
                noise_low(old(self)@.key) <= volume <= noise_high(old(self)@.key) && r
                    == #[trigger] noise_packets(volume),
            1 <= r <= noise_packets(noise_high(old(self)@.key)),
    {
        nop_rounds(&mut self.rng, &self.key)
    }

    /// Draws 128 random bits.
    pub(crate) fn draw_u128(&mut self) -> (r: u128)
        ensures
            final(self)@ == old(self)@,
    {
        draw_any_u128(&mut self.rng)
    }

    /// Draws 64 random bits.
    pub(crate) fn draw_u64(&mut self) -> (r: u64)
        ensures
            final(self)@ == old(self)@,
    {
        draw_any_u64(&mut self.rng)
    }

    /// Encrypts a message into its binary packet, for a given header seed.
    pub fn seal(&mut self, seed: u8, tag: Option<u8>, payload: &[u8]) -> (r: Vec<u8>)
        requires
            1 <= tagged(tag, payload@).len() <= PPP_BUFFER_SIZE,
            old(self)@.ready(),
        ensures
            r@ == old(self)@.sealed(seed, tagged(tag, payload@)),
            final(self)@ == old(self)@.after_seal(),
            r@.len() == tagged(tag, payload@).len() + 3,
    {
        let ghost msg: Seq<u8> = tagged(tag, payload@);
        let flags: PayloadFlags = effective_flags(&self.key, self.handshaked);
        let mut body: Vec<u8> = Vec::new();
        match tag {
            Some(t) => body.push(t),
            None => {},
        }
        append(&mut body, payload);
        assert(body@ =~= msg);
        let (header, header_kf): ([u8; 3], u32) = header_encrypt_with(
            seed,
            self.key.kf,
            Some(&mut self.protocol_tx),
            body.len(),
        );
        self.transport_tx.apply(body.as_mut_slice());
        payload_obfuscate(body.as_mut_slice(), &flags, header_kf, self.key.kf);
        let mut packet: Vec<u8> = Vec::new();
        append(&mut packet, header.as_slice());
        append(&mut packet, body.as_slice());
        assert(packet@ =~= header@ + body@);
        packet
    }

    /// Encrypts `plaintext` into a complete wire packet appended to `out`.
    pub fn encrypt_into(&mut self, out: &mut Vec<u8>, plaintext: &[u8]) -> (r: Result<(), Error>)
        requires
            old(self)@.ready(),
        ensures
            exists|d: FrameDraws| #[trigger]
                d.possible() && final(self)@ == old(self)@.after(d, plaintext@)
                    && match old(self)@.sent(d, plaintext@) {
                    Ok(packet) => r == Ok::<(), Error>(()) && final(out)@ == old(out)@ + packet,
                    Err(e) => r == Err::<(), Error>(e) && final(out)@ == old(out)@,
                },
    {
        self.encrypt_impl(out, None, plaintext)
    }

    /// Tagged variant of [`TxCore::encrypt_into`]: the message is the tag
    /// followed by the payload.
    pub fn encrypt_into_tagged(&mut self, out: &mut Vec<u8>, tag: u8, payload: &[u8]) -> (r: Result<
        (),
        Error,
    >)
        requires
            old(self)@.ready(),
            payload@.len() < usize::MAX,
        ensures
            exists|d: FrameDraws| #[trigger]
                d.possible() && final(self)@ == old(self)@.after(d, seq![tag] + payload@)
                    && match old(self)@.sent(d, seq![tag] + payload@) {
                    Ok(packet) => r == Ok::<(), Error>(()) && final(out)@ == old(out)@ + packet,
                    Err(e) => r == Err::<(), Error>(e) && final(out)@ == old(out)@,
                },
    {
        self.encrypt_impl(out, Some(tag), payload)
    }

    /// Encrypts one message and gives the bytes to write to the transport.
    pub fn write(&mut self, plaintext: &[u8]) -> (r: Result<Vec<u8>, Error>)
        requires
            old(self)@.ready(),
        ensures
            exists|d: FrameDraws| #[trigger]
                d.possible() && final(self)@ == old(self)@.after(d, plaintext@)
                    && match old(self)@.sent(d, plaintext@) {
                    Ok(packet) => r matches Ok(v) && v@ == packet,
                    Err(e) => r == Err::<Vec<u8>, Error>(e),
                },
    {
        let mut out: Vec<u8> = Vec::new();
        let sent: Result<(), Error> = self.encrypt_impl(&mut out, None, plaintext);
        proof {
            assert(forall|p: Seq<u8>| Seq::<u8>::empty() + p =~= p);
        }
        match sent {
            Ok(()) => Ok(out),
            Err(e) => Err(e),
        }
    }

    /// Tagged variant of [`TxCore::write`]: the message is the tag followed by
    /// the payload.
    pub fn write_tagged(&mut self, tag: u8, payload: &[u8]) -> (r: Result<Vec<u8>, Error>)
        requires
            old(self)@.ready(),
            payload@.len() < usize::MAX,
        ensures
            exists|d: FrameDraws| #[trigger]
                d.possible() && final(self)@ == old(self)@.after(d, seq![tag] + payload@)
                    && match old(self)@.sent(d, seq![tag] + payload@) {
                    Ok(packet) => r matches Ok(v) && v@ == packet,
                    Err(e) => r == Err::<Vec<u8>, Error>(e),
                },
    {
        let mut out: Vec<u8> = Vec::new();
        let sent: Result<(), Error> = self.encrypt_impl(&mut out, Some(tag), payload);
        proof {
            assert(forall|p: Seq<u8>| Seq::<u8>::empty() + p =~= p);
        }
        match sent {
            Ok(()) => Ok(out),
            Err(e) => Err(e),
        }
    }

    fn encrypt_impl(&mut self, out: &mut Vec<u8>, tag: Option<u8>, payload: &[u8]) -> (r: Result<
        (),
        Error,
    >)
        requires
            old(self)@.ready(),
            tag is Some ==> payload@.len() < usize::MAX,
        ensures
            exists|d: FrameDraws| #[trigger]
                d.possible() && final(self)@ == old(self)@.after(d, tagged(tag, payload@))
                    && match old(self)@.sent(d, tagged(tag, payload@)) {
                    Ok(packet) => r == Ok::<(), Error>(()) && final(out)@ == old(out)@ + packet,
                    Err(e) => r == Err::<(), Error>(e) && final(out)@ == old(out)@,
                },
    {
        let ghost msg: Seq<u8> = tagged(tag, payload@);
        let ghost start: TxModel = self@;
        let ghost base: Seq<u8> = out@;
        let total: usize = payload.len() + (if tag.is_some() { 1 } else { 0 });
        assert(total == msg.len());
        if total == 0 {
            assert((FrameDraws { seed: 1, k: 0x20, filler: 0x20 }).possible());
            return Err(Error::ZeroLength);
        }
        if total > PPP_BUFFER_SIZE {
            assert((FrameDraws { seed: 1, k: 0x20, filler: 0x20 }).possible());
            return Err(Error::FrameTooLarge { len: total });
        }
        let seed: u8 = draw_u8(&mut self.rng, 1, 0xff);
        let packet: Vec<u8> = self.seal(seed, tag, payload);
        if !self.handshaked || self.key.plaintext {
            proof {
                law_encode_printable(packet@, self@.framer.kf);
            }
            let r: Result<(), Error> = self.b94.encode_frame(
                &mut self.rng,
                out,
                packet.as_slice(),
            );
            proof {
                let (k, filler): (u8, u8) = choose|k: u8, filler: u8|
                    is_printable(k) && is_printable(filler) && match #[trigger] framed(
                        start.framer,
                        k,
                        filler,
                        packet@,
                    ) {
                        Ok(frame) => r == Ok::<(), Error>(()) && out@ == base + frame
                            && self@.framer == after_send(start.framer),
                        Err(e) => r == Err::<(), Error>(e) && out@ == base && self@.framer
                            == start.framer,
                    };
                let d: FrameDraws = FrameDraws { seed, k, filler };
                assert(d.possible());
                assert(self@ == start.after(d, msg));
            }
            r
        } else {
            append(out, packet.as_slice());
            proof {
                let d: FrameDraws = FrameDraws { seed, k: 0x20, filler: 0x20 };
                assert(d.possible());
                assert(self@ == start.after(d, msg));
            }
            Ok(())
        }
    }

    /// Ends the handshake of this direction: fresh ciphers with per-connection
    /// key material, data-plane framing.
    pub fn establish(&mut self, ivv: u128)
        ensures
            final(self)@ == old(self)@.established(ivv),
    {
        self.protocol_tx = SessionCipher::derive(
            self.key.protocol,
            CipherRole::Protocol,
            self.key.protocol_key.as_str(),
            Some(ivv),
        );
        self.transport_tx = SessionCipher::derive(
            self.key.transport,
            CipherRole::Transport,
            self.key.transport_key.as_str(),
            Some(ivv),
        );
        self.handshaked = true;
    }
}

// ---------------------------------------------------------------------------
// The receiving direction
// ---------------------------------------------------------------------------

/// What the header of a packet says of its body.
#[derive(Clone, Copy, Debug, PartialEq, Eq, Structural)]
pub struct FrameHead {
    /// How many bytes the body has.
    pub len: usize,
    /// The key of the payload transforms; zero where the body holds its own
    /// binary header.
    pub key: u32,
}

/// State of the receiving direction, the exact inverse of [`TxCore`].
pub struct RxCore {
    key: ObfuscationKey,
    b94: Base94Framer,
    protocol_rx: SessionCipher,
    transport_rx: SessionCipher,
    handshaked: bool,
    scratch: Vec<u8>,
}

impl View for RxCore {
    type V = RxModel;

    closed spec fn view(&self) -> RxModel {
        RxModel {
            key: self.key,
            framer: self.b94@,
            protocol: self.protocol_rx@,
            transport: self.transport_rx@,
            handshaked: self.handshaked,
        }
    }
}

/// How many bytes the header of the next packet has.
pub open spec fn head_size(m: RxModel) -> int {
    if enveloped(m.key, m.handshaked) {
        rx_header_len(m.framer)
    } else {
        3
    }
}

impl RxCore {
    /// The state before anything was received.
    pub fn new(key: ObfuscationKey) -> (r: RxCore)
        ensures
            r@ == RxModel::fresh(key),
    {
        let b94: Base94Framer = Base94Framer::new(key.kf);
        let protocol_rx: SessionCipher = SessionCipher::new(
            key.protocol,
            CipherRole::Protocol,
            key.protocol_key.as_str(),
        ).for_decryption();
        let transport_rx: SessionCipher = SessionCipher::new(
            key.transport,
            CipherRole::Transport,
            key.transport_key.as_str(),
        ).for_decryption();
        RxCore { key, b94, protocol_rx, transport_rx, handshaked: false, scratch: Vec::new() }
    }

    /// Whether the handshake is over.
    pub fn is_handshaked(&self) -> (r: bool)
        ensures
            r == self@.handshaked,
    {
        self.handshaked
    }

    /// Whether both nonce counters have a value left.
    pub fn can_receive(&self) -> (r: bool)
        ensures
            r == self@.ready(),
    {
        self.protocol_rx.sequence() < u64::MAX && self.transport_rx.sequence() < u64::MAX
    }

    /// Parses the header of a binary packet. `declared_total` is the length of
    /// the whole packet where it is known, which guards against truncation and
    /// splicing; stream callers read exactly as many bytes as the header says.
    fn parse_binary_header(&mut self, header: &[u8; 3], declared_total: Option<usize>) -> (r: Result<
        FrameHead,
        Error,
    >)
        requires
            old(self)@.ready(),
        ensures
            final(self)@ == (RxModel { protocol: old(self)@.protocol.next(), ..old(self)@ }),
            match declared_total {
                Some(total) => if old(self)@.announced(header@) + 3 == total {
                    r is Ok
                } else {
                    r == Err::<FrameHead, Error>(Error::InvalidFrame)
                },
                None => r is Ok,
            },
            r matches Ok(h) ==> h.len == old(self)@.announced(header@) && 1 <= h.len
                <= PPP_BUFFER_SIZE && h.key == header_key(
                old(self)@.key.kf,
                header_seed(old(self)@.key.kf, header@),
            ),
    {
        assert(header@.take(3) =~= header@);
        let (len, key): (usize, u32) = match header_decrypt(
            self.key.kf,
            Some(&mut self.protocol_rx),
            header,
        ) {
            Ok(h) => h,
            Err(e) => return Err(e),
        };
        match declared_total {
            Some(total) => {
                if len + HEADER_SIZE != total {
                    return Err(Error::InvalidFrame);
                }
            },
            None => {},
        }
        Ok(FrameHead { len, key })
    }

    /// Decrypts the body of a packet in place.
    fn reveal_body(&mut self, key: u32, body: &mut [u8])
        requires
            old(self)@.transport.seq < u64::MAX,
            old(body)@.len() <= PPP_BUFFER_SIZE,
        ensures
            final(self)@ == (RxModel { transport: old(self)@.transport.next(), ..old(self)@ }),
            final(body)@ == old(self)@.transport.applied(
                deobfuscated(
                    old(body)@,
                    flags_in_effect(old(self)@.key, old(self)@.handshaked),
                    key,
                    old(self)@.key.kf,
                ),
            ),
            final(body)@.len() == old(body)@.len(),
    {
        let flags: PayloadFlags = effective_flags(&self.key, self.handshaked);
        payload_deobfuscate(body, &flags, key, self.key.kf);
        self.transport_rx.apply(body);
    }

    /// Decrypts a whole binary packet in place: the message ends up behind the
    /// three header bytes.
    fn open(&mut self, buf: &mut [u8]) -> (r: Result<(), Error>)
        requires
            old(self)@.ready(),
        ensures
            final(self)@ == old(self)@.after_open(old(buf)@),
            match old(self)@.opened(old(buf)@) {
                Ok(msg) => r == Ok::<(), Error>(()) && final(buf)@ == old(buf)@.take(3) + msg
                    && old(buf)@.len() >= 3,
                Err(e) => r == Err::<(), Error>(e) && final(buf)@ == old(buf)@,
            },
    {
        let ghost start: Seq<u8> = buf@;
        let ghost model: RxModel = self@;
        let n: usize = buf.len();
        if n <= HEADER_SIZE {
            return Err(Error::InvalidFrame);
        }
        let header: [u8; 3] = [buf[0], buf[1], buf[2]];
        assert(header@ =~= start.take(3));
        assert(header@.take(3) =~= header@);
        let head: FrameHead = match self.parse_binary_header(&header, Some(n)) {
            Ok(h) => h,
            Err(e) => return Err(e),
        };
        let (front, body) = buf.split_at_mut(HEADER_SIZE);
        self.reveal_body(head.key, body);
        proof {
            assert(start.subrange(3, start.len() as int) =~= start.skip(3));
            assert(start.subrange(0, 3) =~= start.take(3));
        }
        Ok(())
    }

    /// Decrypts one complete wire packet (in-memory inverse of
    /// [`TxCore::encrypt_into`]).
    pub fn decrypt(&mut self, packet: &[u8]) -> (r: Result<Vec<u8>, Error>)
        requires
            old(self)@.ready(),
        ensures
            final(self)@ == old(self)@.after(packet@),
            match old(self)@.received(packet@) {
                Ok(msg) => r matches Ok(v) && v@ == msg,
                Err(e) => r == Err::<Vec<u8>, Error>(e),
            },
    {
        let mut buf: Vec<u8> = Vec::new();
        if !self.handshaked || self.key.plaintext {
            match self.b94.decode_packet_into(&mut buf, packet) {
                Ok(()) => {},
                Err(e) => return Err(e),
            }
        } else {
            append(&mut buf, packet);
            assert(buf@ =~= packet@);
        }
        match self.open(buf.as_mut_slice()) {
            Ok(()) => {
                let tail: Vec<u8> = buf.split_off(HEADER_SIZE);
                assert(tail@ =~= old(self)@.received(packet@)->Ok_0);
                Ok(tail)
            },
            Err(e) => Err(e),
        }
    }

    /// In-place variant of [`RxCore::decrypt`]: the message borrows either
    /// `packet` (binary framing) or an internal buffer (base94 framing) that
    /// the next call overwrites.
    pub fn decrypt_in_place<'a>(&'a mut self, packet: &'a mut [u8]) -> (r: Result<&'a [u8], Error>)
        requires
            old(self)@.ready(),
        ensures
            final(self)@ == old(self)@.after(old(packet)@),
            match old(self)@.received(old(packet)@) {
                Ok(msg) => r matches Ok(v) && v@ == msg,
                Err(e) => r == Err::<&'a [u8], Error>(e),
            },
            enveloped(old(self)@.key, old(self)@.handshaked) ==> final(packet)@ == old(packet)@,
            !enveloped(old(self)@.key, old(self)@.handshaked) ==> match old(self)@.received(
                old(packet)@,
            ) {
                Ok(msg) => final(packet)@ == old(packet)@.take(3) + msg,
                Err(e) => final(packet)@ == old(packet)@,
            },
    {
        if !self.handshaked || self.key.plaintext {
            let mut buf: Vec<u8> = Vec::new();
            match self.b94.decode_packet_into(&mut buf, packet) {
                Ok(()) => {},
                Err(e) => return Err(e),
            }
            match self.open(buf.as_mut_slice()) {
                Ok(()) => {},
                Err(e) => return Err(e),
            }
            let n: usize = buf.len();
            self.scratch = buf;
            let msg: &'a [u8] = slice_subrange(self.scratch.as_slice(), HEADER_SIZE, n);
            assert(msg@ =~= old(self)@.received(old(packet)@)->Ok_0);
            Ok(msg)
        } else {
            match self.open(packet) {
                Ok(()) => {},
                Err(e) => return Err(e),
            }
            let n: usize = packet.len();
            let msg: &'a [u8] = slice_subrange(packet, HEADER_SIZE, n);
            assert(msg@ =~= old(self)@.received(old(packet)@)->Ok_0);
            Ok(msg)
        }
    }

    /// How many bytes to read for the header of the next packet.
    pub fn head_len(&self) -> (r: usize)
        ensures
            r == head_size(self@),
    {
        if !self.handshaked || self.key.plaintext {
            self.b94.header_len()
        } else {
            HEADER_SIZE
        }
    }

    /// Takes the header of the next packet and says what to read for its body.
    pub fn read_head(&mut self, head: &[u8]) -> (r: Result<FrameHead, Error>)
        requires
            old(self)@.ready(),
            head@.len() == head_size(old(self)@),
        ensures
            enveloped(old(self)@.key, old(self)@.handshaked) ==> final(self)@ == old(self)@
                && match header_decoded(
                old(self)@.framer.kf,
                old(self)@.framer.rx_first,
                head@,
            ) {
                Ok(len) => r == Ok::<FrameHead, Error>(FrameHead { len: len as usize, key: 0 }),
                Err(e) => r == Err::<FrameHead, Error>(e),
            },
            !enveloped(old(self)@.key, old(self)@.handshaked) ==> {
                &&& final(self)@ == (RxModel { protocol: old(self)@.protocol.next(), ..old(self)@ })
                &&& r matches Ok(h) && h.len == old(self)@.announced(head@) && 1 <= h.len
                    <= PPP_BUFFER_SIZE && h.key == header_key(
                    old(self)@.key.kf,
                    header_seed(old(self)@.key.kf, head@),
                )
            },
            r matches Ok(h) ==> h.len <= BASE94_MAX_FRAME,
    {
        if !self.handshaked || self.key.plaintext {
            match self.b94.decode_header(head) {
                Ok(len) => Ok(FrameHead { len, key: 0 }),
                Err(e) => Err(e),
            }
        } else {
            let header: [u8; 3] = [head[0], head[1], head[2]];
            assert(header@ =~= head@);
            self.parse_binary_header(&header, None)
        }
    }

    /// Takes the body of a packet whose header [`RxCore::read_head`] took, and
    /// gives the message.
    pub fn read_body(&mut self, head: FrameHead, body: &[u8]) -> (r: Result<Vec<u8>, Error>)
        requires
            old(self)@.transport.seq < u64::MAX,
            enveloped(old(self)@.key, old(self)@.handshaked) ==> old(self)@.ready(),
            body@.len() == head.len,
            !enveloped(old(self)@.key, old(self)@.handshaked) ==> head.len <= PPP_BUFFER_SIZE,
        ensures
            enveloped(old(self)@.key, old(self)@.handshaked) ==> match body_decoded(
                old(self)@.framer.kf,
                body@,
            ) {
                Ok(binary) => {
                    &&& final(self)@ == old(self)@.after_envelope().after_open(binary)
                    &&& match old(self)@.after_envelope().opened(binary) {
                        Ok(msg) => r matches Ok(v) && v@ == msg,
                        Err(e) => r == Err::<Vec<u8>, Error>(e),
                    }
                },
                Err(e) => r == Err::<Vec<u8>, Error>(e) && final(self)@ == old(self)@,
            },
            !enveloped(old(self)@.key, old(self)@.handshaked) ==> {
                &&& final(self)@ == (RxModel {
                    transport: old(self)@.transport.next(),
                    ..old(self)@
                })
                &&& r matches Ok(v) && v@ == old(self)@.transport.applied(
                    deobfuscated(
                        body@,
                        flags_in_effect(old(self)@.key, old(self)@.handshaked),
                        head.key,
                        old(self)@.key.kf,
                    ),
                )
            },
    {
        let mut buf: Vec<u8> = Vec::new();
        if !self.handshaked || self.key.plaintext {
            match self.b94.decode_body(body, &mut buf) {
                Ok(()) => {},
                Err(e) => return Err(e),
            }
            let ghost binary: Seq<u8> = buf@;
            match self.open(buf.as_mut_slice()) {
                Ok(()) => {
                    let tail: Vec<u8> = buf.split_off(HEADER_SIZE);
                    assert(tail@ =~= old(self)@.after_envelope().opened(binary)->Ok_0);
                    Ok(tail)
                },
                Err(e) => Err(e),
            }
        } else {
            append(&mut buf, body);
            assert(buf@ =~= body@);
            self.reveal_body(head.key, buf.as_mut_slice());
            Ok(buf)
        }
    }

    /// The error for a body that could not be read: where the stream ended, a
    /// binary packet is reported as truncated.
    pub fn body_error(&self, e: IoError) -> (r: Error)
        ensures
            enveloped(self@.key, self@.handshaked) || e.kind != IoErrorKind::UnexpectedEof ==> r
                == Error::Io(e),
            !enveloped(self@.key, self@.handshaked) && e.kind == IoErrorKind::UnexpectedEof ==> (
            r matches Error::Io(f) && f.kind == IoErrorKind::UnexpectedEof && f.message@
                == "truncated binary frame"@),
    {
        if !self.handshaked || self.key.plaintext || e.kind != IoErrorKind::UnexpectedEof {
            Error::Io(e)
        } else {
            Error::Io(IoError::new(IoErrorKind::UnexpectedEof, "truncated binary frame"))
        }
    }

    /// Reads one message off the front of bytes in memory.
    pub fn read(&mut self, input: &mut &[u8]) -> (r: Result<Vec<u8>, Error>)
        requires
            old(self)@.ready(),
        ensures
            final(self)@ == old(self)@.after_read((*old(input))@),
            match old(self)@.read((*old(input))@) {
                Received::Message(msg, used) => r matches Ok(v) && v@ == msg,
                Received::Cut => r matches Err(e) && old(self)@.cut_error((*old(input))@, e),
                Received::Refused(e) => r == Err::<Vec<u8>, Error>(e),
            },
            (*final(input))@ == old(self)@.read_rest((*old(input))@),
    {
        let ghost s: Seq<u8> = (*input)@;
        let ghost model: RxModel = self@;
        let hlen: usize = self.head_len();
        let head_bytes: &[u8] = match take_exact(input, hlen) {
            Ok(h) => h,
            Err(e) => return Err(Error::Io(e)),
        };
        proof {
            if !enveloped(model.key, model.handshaked) {
                assert(s.take(3).take(3) =~= s.take(3));
            }
        }
        let head: FrameHead = match self.read_head(head_bytes) {
            Ok(h) => h,
            Err(e) => return Err(e),
        };
        let body: &[u8] = match take_exact(input, head.len) {
            Ok(b) => b,
            Err(e) => return Err(self.body_error(e)),
        };
        proof {
            assert(body@ =~= s.subrange(hlen as int, hlen + head.len));
            assert((*input)@ =~= s.skip(hlen + head.len));
        }
        self.read_body(head, body)
    }

    /// [`RxCore::read`] where the message borrows an internal buffer that the
    /// next call overwrites.
    pub fn read_buf<'a>(&'a mut self, input: &mut &[u8]) -> (r: Result<&'a [u8], Error>)
        requires
            old(self)@.ready(),
        ensures
            final(self)@ == old(self)@.after_read((*old(input))@),
            match old(self)@.read((*old(input))@) {
                Received::Message(msg, used) => r matches Ok(v) && v@ == msg,
                Received::Cut => r matches Err(e) && old(self)@.cut_error((*old(input))@, e),
                Received::Refused(e) => r == Err::<&'a [u8], Error>(e),
            },
            (*final(input))@ == old(self)@.read_rest((*old(input))@),
    {
        match self.read(input) {
            Ok(msg) => {
                self.scratch = msg;
                Ok(self.scratch.as_slice())
            },
            Err(e) => Err(e),
        }
    }

    /// Ends the handshake of this direction: fresh ciphers with per-connection
    /// key material, data-plane framing.
    pub fn establish(&mut self, ivv: u128)
        ensures
            final(self)@ == old(self)@.established(ivv),
    {
        self.protocol_rx = SessionCipher::derive(
            self.key.protocol,
            CipherRole::Protocol,
            self.key.protocol_key.as_str(),
            Some(ivv),
        ).for_decryption();
        self.transport_rx = SessionCipher::derive(
            self.key.transport,
            CipherRole::Transport,
            self.key.transport_key.as_str(),
            Some(ivv),
        ).for_decryption();
        self.handshaked = true;
    }
}

} // verus!
