//! Transmissions: both directions of a connection around a transport, and the
//! handshake as a state machine.
//!
//! The transport is carried along and never touched. The handshake functions
//! say what to send next; the caller writes those bytes, reads the next
//! message and hands it back.

use crate::codec::{
    after_wire, enveloped, law_stream_delivers_in_order, lemma_wire_push, messages_of, mirrors,
    same_key, wire_of, FrameDraws, Received, RxCore, RxModel, TxCore, TxModel,
};
use crate::config::ObfuscationKey;
use crate::error::{Error, IoError, IoErrorKind};
use crate::handshake::{
    build_nmux, canary, canary_accepted, check_canary, law_dummy_packets_skipped,
    law_nmux_negotiation, law_noise_volume, law_unpack_inverts_pack, max_nop_packets, nmux_of,
    noise_high, noise_low, noise_packets, packed, padding, unpack_session_id, unpacked, PackDraws,
    SessionPacket,
};
use crate::rng::system_rng;
use crate::SessionId;
use rand::rngs::StdRng;
use vstd::arithmetic::power2::{lemma2_to64, lemma_pow2_strictly_increases};
use vstd::prelude::*;

verus! {

// ---------------------------------------------------------------------------
// Model of the handshake
// ---------------------------------------------------------------------------

/// What the random draws of one handshake packet gave.
pub struct SendDraws {
    /// The draws of the packet.
    pub pack: PackDraws,
    /// The draws of its frame.
    pub frame: FrameDraws,
}

impl SendDraws {
    /// What every outcome of the draws satisfies.
    pub open spec fn possible(self, key: ObfuscationKey, id: u128) -> bool {
        self.pack.possible(key, id) && self.frame.possible()
    }
}

/// The wire bytes of one handshake packet.
pub open spec fn id_sent(m: TxModel, id: u128, d: SendDraws) -> Result<Seq<u8>, Error> {
    m.sent(d.frame, packed(m.key, id, d.pack))
}

/// The sending state after one handshake packet.
pub open spec fn after_id(m: TxModel, id: u128, d: SendDraws) -> TxModel {
    m.after(d.frame, packed(m.key, id, d.pack))
}

/// The wire bytes of a row of handshake packets, up to the first that fails.
pub open spec fn ids_sent(m: TxModel, ids: Seq<u128>, ds: Seq<SendDraws>) -> Result<Seq<u8>, Error>
    decreases ids.len(),
{
    if ids.len() == 0 {
        Ok(Seq::empty())
    } else {
        match ids_sent(m, ids.drop_last(), ds.drop_last()) {
            Err(e) => Err(e),
            Ok(bytes) => match id_sent(
                after_ids(m, ids.drop_last(), ds.drop_last()),
                ids.last(),
                ds.last(),
            ) {
                Err(e) => Err(e),
                Ok(packet) => Ok(bytes + packet),
            },
        }
    }
}

/// The sending state after a row of handshake packets.
pub open spec fn after_ids(m: TxModel, ids: Seq<u128>, ds: Seq<SendDraws>) -> TxModel
    decreases ids.len(),
{
    if ids.len() == 0 {
        m
    } else {
        let before: TxModel = after_ids(m, ids.drop_last(), ds.drop_last());
        if ids_sent(m, ids.drop_last(), ds.drop_last()) is Err {
            before
        } else {
            after_id(before, ids.last(), ds.last())
        }
    }
}

/// One possible outcome of the draws for each packet of a row.
pub open spec fn draws_possible(key: ObfuscationKey, ids: Seq<u128>, ds: Seq<SendDraws>) -> bool {
    &&& ds.len() == ids.len()
    &&& forall|i: int| 0 <= i < ids.len() ==> (#[trigger] ds[i]).possible(key, ids[i])
}

/// The ids of the noise prelude: zeros, which stand for noise packets.
pub open spec fn prelude(rounds: nat) -> Seq<u128> {
    Seq::new(rounds, |i: int| 0u128)
}

/// A possible length of the noise prelude.
pub open spec fn prelude_len(key: ObfuscationKey, rounds: nat) -> bool {
    exists|volume: nat|
        noise_low(key) <= volume <= noise_high(key) && rounds == #[trigger] noise_packets(volume)
}

/// Where a handshake stands. Each waiting state says how many noise packets
/// may still be skipped.
#[derive(Clone, Copy, Debug, PartialEq, Eq, Structural)]
pub enum HandshakeState {
    /// A client waits for the session id of the server.
    AwaitSid {
        /// Noise packets that may still be skipped.
        budget: u32,
    },
    /// A client that has sent its `ivv` waits for `nmux`.
    AwaitMux {
        /// The session id of the server.
        sid: SessionId,
        /// The key material that was sent.
        ivv: u128,
        /// Noise packets that may still be skipped.
        budget: u32,
    },
    /// A server waits for the `ivv` of the client.
    AwaitIvv {
        /// The session id that was assigned.
        session_id: SessionId,
        /// The multiplexing decision that was sent.
        mux: bool,
        /// Noise packets that may still be skipped.
        budget: u32,
    },
    /// The handshake is over.
    Done {
        /// The session id.
        session_id: SessionId,
        /// The multiplexing decision of the server.
        mux: bool,
    },
}

impl HandshakeState {
    /// Noise packets that may still be skipped.
    pub open spec fn budget(self) -> u32 {
        match self {
            HandshakeState::AwaitSid { budget } => budget,
            HandshakeState::AwaitMux { sid, ivv, budget } => budget,
            HandshakeState::AwaitIvv { session_id, mux, budget } => budget,
            HandshakeState::Done { session_id, mux } => 0,
        }
    }

    /// The same state with another budget.
    pub open spec fn with_budget(self, budget: u32) -> HandshakeState {
        match self {
            HandshakeState::AwaitSid { budget: b } => HandshakeState::AwaitSid { budget },
            HandshakeState::AwaitMux { sid, ivv, budget: b } => HandshakeState::AwaitMux {
                sid,
                ivv,
                budget,
            },
            HandshakeState::AwaitIvv { session_id, mux, budget: b } => HandshakeState::AwaitIvv {
                session_id,
                mux,
                budget,
            },
            HandshakeState::Done { session_id, mux } => HandshakeState::Done { session_id, mux },
        }
    }
}

/// What to do about a handshake message.
pub enum Verdict {
    /// The handshake fails.
    Fail(Error),
    /// The message is noise: wait for the next one.
    Skip(HandshakeState),
    /// A client got the session id of the server and answers with its `ivv`.
    SendIvv {
        /// The session id of the server.
        sid: SessionId,
    },
    /// The handshake is complete.
    Finish {
        /// The session id.
        session_id: SessionId,
        /// The key material of the session.
        ivv: u128,
        /// The multiplexing decision of the server.
        mux: bool,
    },
}

/// What to do about the message `msg` in a state.
pub open spec fn decided(key: ObfuscationKey, state: HandshakeState, msg: Seq<u8>) -> Verdict {
    match unpacked(key, msg) {
        Err(e) => Verdict::Fail(e),
        Ok(SessionPacket::Dummy) => if state.budget() == 0 {
            Verdict::Fail(Error::HandshakeFailed("too many dummy packets"))
        } else {
            Verdict::Skip(state.with_budget((state.budget() - 1) as u32))
        },
        Ok(SessionPacket::Session(id)) => match state {
            HandshakeState::AwaitSid { budget } => if id == 0 {
                Verdict::Fail(Error::HandshakeFailed("server session id is zero"))
            } else {
                Verdict::SendIvv { sid: id }
            },
            HandshakeState::AwaitMux { sid, ivv, budget } => if id == 0 {
                Verdict::Fail(Error::HandshakeFailed("nmux is zero"))
            } else if !canary_accepted(key, id) {
                Verdict::Fail(Error::FlagsMismatch)
            } else {
                Verdict::Finish { session_id: sid, ivv, mux: id % 2 == 1 }
            },
            HandshakeState::AwaitIvv { session_id, mux, budget } => if id == 0 {
                Verdict::Fail(Error::HandshakeFailed("client ivv is zero"))
            } else {
                Verdict::Finish { session_id, ivv: id, mux }
            },
            HandshakeState::Done { session_id, mux } => Verdict::Fail(Error::InvalidSessionId),
        },
    }
}

// ---------------------------------------------------------------------------
// Laws of the handshake
// ---------------------------------------------------------------------------

/// With the same configuration on both sides the handshake messages lead both
/// to the same session id, key material and mux decision, whatever the draws
/// were.
pub proof fn law_handshake_agrees(
    server: ObfuscationKey,
    client: ObfuscationKey,
    sid: u128,
    ivv: u128,
    low: u64,
    mux: bool,
    d1: PackDraws,
    d2: PackDraws,
    d3: PackDraws,
    b1: u32,
    b2: u32,
    b3: u32,
)
    requires
        same_key(server, client),
        sid != 0,
        ivv != 0,
        d1.possible(server, sid),
        d2.possible(server, nmux_of(server, low, mux)),
        d3.possible(client, ivv),
    ensures
        decided(client, HandshakeState::AwaitSid { budget: b1 }, packed(server, sid, d1))
            == (Verdict::SendIvv { sid }),
        decided(
            client,
            HandshakeState::AwaitMux { sid, ivv, budget: b2 },
            packed(server, nmux_of(server, low, mux), d2),
        ) == (Verdict::Finish { session_id: sid, ivv, mux }),
        decided(
            server,
            HandshakeState::AwaitIvv { session_id: sid, mux, budget: b3 },
            packed(client, ivv, d3),
        ) == (Verdict::Finish { session_id: sid, ivv, mux }),
{
    let nmux: u128 = nmux_of(server, low, mux);
    law_nmux_negotiation(server, client, low, mux);
    law_unpack_inverts_pack(server, client, sid, d1);
    law_unpack_inverts_pack(server, client, nmux, d2);
    law_unpack_inverts_pack(client, server, ivv, d3);
}

/// A client whose switches or low key bits differ from those of the server
/// refuses its `nmux`.
pub proof fn law_mismatched_flags_refused(
    server: ObfuscationKey,
    client: ObfuscationKey,
    sid: u128,
    ivv: u128,
    low: u64,
    mux: bool,
    d: PackDraws,
    budget: u32,
)
    requires
        canary(server) != canary(client),
        d.possible(server, nmux_of(server, low, mux)),
    ensures
        decided(
            client,
            HandshakeState::AwaitMux { sid, ivv, budget },
            packed(server, nmux_of(server, low, mux), d),
        ) == Verdict::Fail(Error::FlagsMismatch),
{
    law_nmux_negotiation(server, client, low, mux);
    law_unpack_inverts_pack(server, client, nmux_of(server, low, mux), d);
}

/// Noise packets are skipped in every waiting state until the budget is used
/// up; one more fails the handshake.
pub proof fn law_noise_skipped(
    sender: ObfuscationKey,
    receiver: ObfuscationKey,
    state: HandshakeState,
    d: PackDraws,
)
    requires
        d.possible(sender, 0),
    ensures
        state.budget() > 0 ==> decided(receiver, state, packed(sender, 0, d)) == Verdict::Skip(
            state.with_budget((state.budget() - 1) as u32),
        ),
        state.budget() == 0 ==> decided(receiver, state, packed(sender, 0, d)) == Verdict::Fail(
            Error::HandshakeFailed("too many dummy packets"),
        ),
{
    law_dummy_packets_skipped(sender, receiver, d);
}

/// The state after skipping noise messages one after the other; none where one
/// of them is not skipped.
pub open spec fn skipped(key: ObfuscationKey, state: HandshakeState, msgs: Seq<Seq<u8>>) -> Option<
    HandshakeState,
>
    decreases msgs.len(),
{
    if msgs.len() == 0 {
        Some(state)
    } else {
        match skipped(key, state, msgs.drop_last()) {
            Some(mid) => match decided(key, mid, msgs.last()) {
                Verdict::Skip(next) => Some(next),
                _ => None,
            },
            None => None,
        }
    }
}

/// A session packet moves each waiting state on by one step, and zero in it fails
/// the handshake: a client takes the first for the session id and the second for
/// `nmux`, whose parity is the mux decision; a server takes it for the key
/// material. When the handshake is over there is nothing to receive.
pub proof fn law_session_packets(
    key: ObfuscationKey,
    msg: Seq<u8>,
    id: u128,
    sid: u128,
    ivv: u128,
    mux: bool,
    b: u32,
)
    requires
        unpacked(key, msg) == Ok::<SessionPacket, Error>(SessionPacket::Session(id)),
    ensures
        decided(key, HandshakeState::AwaitSid { budget: b }, msg) == if id == 0 {
            Verdict::Fail(Error::HandshakeFailed("server session id is zero"))
        } else {
            Verdict::SendIvv { sid: id }
        },
        id == 0 ==> decided(key, HandshakeState::AwaitMux { sid, ivv, budget: b }, msg)
            == Verdict::Fail(Error::HandshakeFailed("nmux is zero")),
        id != 0 && canary_accepted(key, id) ==> decided(
            key,
            HandshakeState::AwaitMux { sid, ivv, budget: b },
            msg,
        ) == (Verdict::Finish { session_id: sid, ivv, mux: id % 2 == 1 }),
        id != 0 && !canary_accepted(key, id) ==> decided(
            key,
            HandshakeState::AwaitMux { sid, ivv, budget: b },
            msg,
        ) == Verdict::Fail(Error::FlagsMismatch),
        decided(key, HandshakeState::AwaitIvv { session_id: sid, mux, budget: b }, msg) == if id
            == 0 {
            Verdict::Fail(Error::HandshakeFailed("client ivv is zero"))
        } else {
            Verdict::Finish { session_id: sid, ivv: id, mux }
        },
        decided(key, HandshakeState::Done { session_id: sid, mux }, msg) == Verdict::Fail(
            Error::InvalidSessionId,
        ),
{
}

/// A noise packet costs one of the budget, and nothing else of the state; the
/// one for which none is left fails the handshake. What is no packet fails it
/// with the reason.
pub proof fn law_noise_costs_one(
    key: ObfuscationKey,
    msg: Seq<u8>,
    sid: u128,
    ivv: u128,
    mux: bool,
    b: u32,
    state: HandshakeState,
)
    requires
        b > 0,
    ensures
        unpacked(key, msg) matches Err(e) ==> decided(key, state, msg) == Verdict::Fail(e),
        unpacked(key, msg) == Ok::<SessionPacket, Error>(SessionPacket::Dummy) ==> {
            &&& decided(key, HandshakeState::AwaitSid { budget: b }, msg) == Verdict::Skip(
                HandshakeState::AwaitSid { budget: (b - 1) as u32 },
            )
            &&& decided(key, HandshakeState::AwaitMux { sid, ivv, budget: b }, msg) == Verdict::Skip(
                HandshakeState::AwaitMux { sid, ivv, budget: (b - 1) as u32 },
            )
            &&& decided(key, HandshakeState::AwaitIvv { session_id: sid, mux, budget: b }, msg)
                == Verdict::Skip(
                HandshakeState::AwaitIvv { session_id: sid, mux, budget: (b - 1) as u32 },
            )
            &&& decided(key, HandshakeState::AwaitSid { budget: 0 }, msg) == Verdict::Fail(
                Error::HandshakeFailed("too many dummy packets"),
            )
            &&& decided(key, HandshakeState::AwaitMux { sid, ivv, budget: 0 }, msg)
                == Verdict::Fail(Error::HandshakeFailed("too many dummy packets"))
            &&& decided(key, HandshakeState::AwaitIvv { session_id: sid, mux, budget: 0 }, msg)
                == Verdict::Fail(Error::HandshakeFailed("too many dummy packets"))
            &&& decided(key, HandshakeState::Done { session_id: sid, mux }, msg) == Verdict::Fail(
                Error::HandshakeFailed("too many dummy packets"),
            )
        },
{
}

/// What a handshake starts with: a server sends noise, then its session id, then
/// `nmux`; a client sends noise alone.
pub proof fn law_offer_layout(
    key: ObfuscationKey,
    rounds: nat,
    sid: u128,
    low: u64,
    mux: bool,
    i: int,
)
    requires
        0 <= i < rounds,
    ensures
        prelude(rounds).len() == rounds,
        prelude(rounds)[i] == 0,
        offer(key, rounds, sid, low, mux).len() == rounds + 2,
        offer(key, rounds, sid, low, mux)[i] == 0,
        offer(key, rounds, sid, low, mux)[rounds as int] == sid,
        offer(key, rounds, sid, low, mux)[rounds as int + 1] / 0x1_0000_0000_0000_0000 == canary(key),
        offer(key, rounds, sid, low, mux)[rounds as int + 1] % 2 == 1 <==> mux,
{
    law_nmux_negotiation(key, key, low, mux);
}

/// How many noise packets go out: as many of 1400 bytes as some volume takes that
/// lies between the two powers of two, and every such number may come up.
pub proof fn law_prelude_volume(key: ObfuscationKey, rounds: nat)
    ensures
        prelude_len(key, rounds) <==> noise_low(key) <= 1400 * rounds && 1400 * rounds
            < noise_high(key) + 1400,
{
    law_noise_volume(key);
    if noise_low(key) <= 1400 * rounds && 1400 * rounds < noise_high(key) + 1400 {
        let volume: nat = if 1400 * rounds <= noise_high(key) {
            1400 * rounds
        } else {
            noise_high(key)
        };
        assert(noise_packets(volume) == rounds);
    }
}

/// A whole prelude is skipped, as long as the budget of the receiver lasts, and
/// leaves it waiting for the same message as before.
pub proof fn law_prelude_skipped(
    sender: ObfuscationKey,
    receiver: ObfuscationKey,
    state: HandshakeState,
    ds: Seq<PackDraws>,
)
    requires
        !(state is Done),
        ds.len() <= state.budget(),
        forall|i: int| 0 <= i < ds.len() ==> (#[trigger] ds[i]).possible(sender, 0),
    ensures
        skipped(receiver, state, Seq::new(ds.len(), |i: int| packed(sender, 0, ds[i]))) == Some(
            state.with_budget((state.budget() - ds.len()) as u32),
        ),
    decreases ds.len(),
{
    let msgs: Seq<Seq<u8>> = Seq::new(ds.len(), |i: int| packed(sender, 0, ds[i]));
    if ds.len() > 0 {
        let init: Seq<PackDraws> = ds.drop_last();
        law_prelude_skipped(sender, receiver, state, init);
        assert(msgs.drop_last() =~= Seq::new(init.len(), |i: int| packed(sender, 0, init[i])));
        let mid: HandshakeState = state.with_budget((state.budget() - init.len()) as u32);
        assert(ds[ds.len() - 1].possible(sender, 0));
        law_noise_skipped(sender, receiver, mid, ds.last());
    }
}

/// The messages of a row of handshake packets.
pub open spec fn row_messages(key: ObfuscationKey, ids: Seq<u128>, ds: Seq<SendDraws>) -> Seq<
    (FrameDraws, Seq<u8>),
> {
    Seq::new(ids.len(), |i: int| (ds[i].frame, packed(key, ids[i], ds[i].pack)))
}

/// The packets of a row of handshake ids.
pub open spec fn row_texts(key: ObfuscationKey, ids: Seq<u128>, ds: Seq<SendDraws>) -> Seq<
    Seq<u8>,
> {
    Seq::new(ids.len(), |i: int| packed(key, ids[i], ds[i].pack))
}

/// What a server sends in a handshake: the noise prelude, the session id and
/// `nmux`.
pub open spec fn offer(
    key: ObfuscationKey,
    rounds: nat,
    sid: u128,
    low: u64,
    mux: bool,
) -> Seq<u128> {
    prelude(rounds).push(sid).push(nmux_of(key, low, mux))
}

/// The receiver of a direction reads exactly the handshake packets that were
/// sent, in order.
pub proof fn law_handshake_row_delivered(
    tx: TxModel,
    rx: RxModel,
    ids: Seq<u128>,
    ds: Seq<SendDraws>,
    rest: Seq<u8>,
)
    requires
        mirrors(tx, rx),
        draws_possible(tx.key, ids, ds),
    ensures
        ids_sent(tx, ids, ds) matches Ok(bytes) ==> messages_of(rx, bytes + rest, ids.len())
            == Some((row_texts(tx.key, ids, ds), rest)),
{
    if ids_sent(tx, ids, ds) is Ok {
        let msgs: Seq<(FrameDraws, Seq<u8>)> = row_messages(tx.key, ids, ds);
        lemma_row_is_wire(tx, ids, ds);
        assert forall|i: int| 0 <= i < msgs.len() implies (#[trigger] msgs[i]).0.possible() by {
            assert(ds[i].possible(tx.key, ids[i]));
        }
        law_stream_delivers_in_order(tx, rx, msgs, rest);
        assert(Seq::new(msgs.len(), |i: int| msgs[i].1) =~= row_texts(tx.key, ids, ds));
    }
}

proof fn lemma_row_is_wire(tx: TxModel, ids: Seq<u128>, ds: Seq<SendDraws>)
    requires
        ds.len() == ids.len(),
        ids_sent(tx, ids, ds) is Ok,
    ensures
        wire_of(tx, row_messages(tx.key, ids, ds)) == Some(ids_sent(tx, ids, ds)->Ok_0),
        after_wire(tx, row_messages(tx.key, ids, ds)) == after_ids(tx, ids, ds),
        after_ids(tx, ids, ds).key == tx.key,
    decreases ids.len(),
{
    let msgs: Seq<(FrameDraws, Seq<u8>)> = row_messages(tx.key, ids, ds);
    if ids.len() > 0 {
        lemma_row_is_wire(tx, ids.drop_last(), ds.drop_last());
        let init: Seq<(FrameDraws, Seq<u8>)> = row_messages(
            tx.key,
            ids.drop_last(),
            ds.drop_last(),
        );
        let last: (FrameDraws, Seq<u8>) = (
            ds.last().frame,
            packed(tx.key, ids.last(), ds.last().pack),
        );
        lemma_wire_push(tx, init, last);
        assert(init.push(last) =~= msgs);
    } else {
        assert(msgs =~= Seq::<(FrameDraws, Seq<u8>)>::empty());
    }
}

/// The longest prelude of a peer with the same noise exponents fits in the
/// budget of the receiver.
pub proof fn law_prelude_fits_budget(sender: ObfuscationKey, receiver: ObfuscationKey, rounds: nat)
    requires
        sender.kl == receiver.kl,
        sender.kh == receiver.kh,
        prelude_len(sender, rounds),
    ensures
        rounds <= noise_packets(noise_high(receiver)),
{
    let volume: nat = choose|volume: nat|
        noise_low(sender) <= volume <= noise_high(sender) && rounds == #[trigger] noise_packets(
            volume,
        );
    assert((volume + 1399) / 1400 <= (noise_high(receiver) + 1399) / 1400);
}

/// The noise packets in front of a row are skipped by a receiver whose budget
/// lasts.
proof fn lemma_row_prelude_skipped(
    sender: ObfuscationKey,
    receiver: ObfuscationKey,
    state: HandshakeState,
    rounds: nat,
    ids: Seq<u128>,
    ds: Seq<SendDraws>,
)
    requires
        !(state is Done),
        rounds <= state.budget(),
        rounds <= ids.len(),
        ids.take(rounds as int) == prelude(rounds),
        draws_possible(sender, ids, ds),
    ensures
        skipped(receiver, state, row_texts(sender, ids, ds).take(rounds as int)) == Some(
            state.with_budget((state.budget() - rounds) as u32),
        ),
{
    let packs: Seq<PackDraws> = Seq::new(rounds, |i: int| ds[i].pack);
    assert forall|i: int| 0 <= i < packs.len() implies (#[trigger] packs[i]).possible(sender, 0) by {
        assert(ids.take(rounds as int)[i] == ids[i]);
        assert(ds[i].possible(sender, ids[i]));
    }
    law_prelude_skipped(sender, receiver, state, packs);
    assert(row_texts(sender, ids, ds).take(rounds as int) =~= Seq::new(
        packs.len(),
        |i: int| packed(sender, 0, packs[i]),
    )) by {
        assert forall|i: int| 0 <= i < rounds implies ids[i] == 0 by {
            assert(ids.take(rounds as int)[i] == ids[i]);
        }
    }
}

/// A client completes the handshake with a server of the same configuration:
/// whatever the draws were, it reads the packets of the server off the stream,
/// skips the prelude, answers the session id with its `ivv`, and accepts `nmux`
/// with the mux decision of the server.
pub proof fn law_client_completes(
    server: TxModel,
    client: RxModel,
    rounds: nat,
    sid: u128,
    low: u64,
    mux: bool,
    ds: Seq<SendDraws>,
    budget: u32,
    ivv: u128,
    later_budget: u32,
)
    requires
        mirrors(server, client),
        same_key(server.key, client.key),
        sid != 0,
        rounds <= budget,
        draws_possible(server.key, offer(server.key, rounds, sid, low, mux), ds),
    ensures
        ids_sent(server, offer(server.key, rounds, sid, low, mux), ds) matches Ok(bytes) ==> {
            let msgs: Seq<Seq<u8>> = row_texts(
                server.key,
                offer(server.key, rounds, sid, low, mux),
                ds,
            );
            &&& messages_of(client, bytes, rounds + 2) == Some((msgs, Seq::<u8>::empty()))
            &&& skipped(
                client.key,
                HandshakeState::AwaitSid { budget },
                msgs.take(rounds as int),
            ) == Some(HandshakeState::AwaitSid { budget: (budget - rounds) as u32 })
            &&& decided(
                client.key,
                HandshakeState::AwaitSid { budget: (budget - rounds) as u32 },
                msgs[rounds as int],
            ) == (Verdict::SendIvv { sid })
            &&& decided(
                client.key,
                HandshakeState::AwaitMux { sid, ivv, budget: later_budget },
                msgs[rounds as int + 1],
            ) == (Verdict::Finish { session_id: sid, ivv, mux })
        },
{
    let ids: Seq<u128> = offer(server.key, rounds, sid, low, mux);
    let nmux: u128 = nmux_of(server.key, low, mux);
    if ids_sent(server, ids, ds) is Ok {
        let bytes: Seq<u8> = ids_sent(server, ids, ds)->Ok_0;
        law_handshake_row_delivered(server, client, ids, ds, Seq::empty());
        assert(bytes + Seq::<u8>::empty() =~= bytes);
        assert(ids.take(rounds as int) =~= prelude(rounds));
        lemma_row_prelude_skipped(
            server.key,
            client.key,
            HandshakeState::AwaitSid { budget },
            rounds,
            ids,
            ds,
        );
        assert(ds[rounds as int].possible(server.key, ids[rounds as int]));
        assert(ds[rounds as int + 1].possible(server.key, ids[rounds as int + 1]));
        law_unpack_inverts_pack(server.key, client.key, sid, ds[rounds as int].pack);
        law_nmux_negotiation(server.key, client.key, low, mux);
        law_unpack_inverts_pack(server.key, client.key, nmux, ds[rounds as int + 1].pack);
    }
}

/// A client whose switches or low key bits differ from those of the server
/// reads the packets of the server off the stream all the same: it skips the
/// prelude, answers the session id, and refuses `nmux`.
pub proof fn law_mismatched_client_refuses(
    server: TxModel,
    client: RxModel,
    rounds: nat,
    sid: u128,
    low: u64,
    mux: bool,
    ds: Seq<SendDraws>,
    budget: u32,
    ivv: u128,
    later_budget: u32,
)
    requires
        mirrors(server, client),
        canary(server.key) != canary(client.key),
        sid != 0,
        rounds <= budget,
        draws_possible(server.key, offer(server.key, rounds, sid, low, mux), ds),
    ensures
        ids_sent(server, offer(server.key, rounds, sid, low, mux), ds) matches Ok(bytes) ==> {
            let msgs: Seq<Seq<u8>> = row_texts(
                server.key,
                offer(server.key, rounds, sid, low, mux),
                ds,
            );
            &&& messages_of(client, bytes, rounds + 2) == Some((msgs, Seq::<u8>::empty()))
            &&& skipped(
                client.key,
                HandshakeState::AwaitSid { budget },
                msgs.take(rounds as int),
            ) == Some(HandshakeState::AwaitSid { budget: (budget - rounds) as u32 })
            &&& decided(
                client.key,
                HandshakeState::AwaitSid { budget: (budget - rounds) as u32 },
                msgs[rounds as int],
            ) == (Verdict::SendIvv { sid })
            &&& decided(
                client.key,
                HandshakeState::AwaitMux { sid, ivv, budget: later_budget },
                msgs[rounds as int + 1],
            ) == Verdict::Fail(Error::FlagsMismatch)
        },
{
    let ids: Seq<u128> = offer(server.key, rounds, sid, low, mux);
    if ids_sent(server, ids, ds) is Ok {
        let bytes: Seq<u8> = ids_sent(server, ids, ds)->Ok_0;
        law_handshake_row_delivered(server, client, ids, ds, Seq::empty());
        assert(bytes + Seq::<u8>::empty() =~= bytes);
        assert(ids.take(rounds as int) =~= prelude(rounds));
        lemma_row_prelude_skipped(
            server.key,
            client.key,
            HandshakeState::AwaitSid { budget },
            rounds,
            ids,
            ds,
        );
        assert(ds[rounds as int].possible(server.key, ids[rounds as int]));
        assert(ds[rounds as int + 1].possible(server.key, ids[rounds as int + 1]));
        law_unpack_inverts_pack(server.key, client.key, sid, ds[rounds as int].pack);
        law_mismatched_flags_refused(
            server.key,
            client.key,
            sid,
            ivv,
            low,
            mux,
            ds[rounds as int + 1].pack,
            later_budget,
        );
    }
}

/// A server completes the handshake with a client of the same configuration:
/// it reads the packets of the client off the stream, skips the prelude, and
/// takes the `ivv`.
pub proof fn law_server_completes(
    client: TxModel,
    server: RxModel,
    rounds: nat,
    ivv: u128,
    ds: Seq<SendDraws>,
    sid: u128,
    mux: bool,
    budget: u32,
)
    requires
        mirrors(client, server),
        ivv != 0,
        rounds <= budget,
        draws_possible(client.key, prelude(rounds).push(ivv), ds),
    ensures
        ids_sent(client, prelude(rounds).push(ivv), ds) matches Ok(bytes) ==> {
            let msgs: Seq<Seq<u8>> = row_texts(client.key, prelude(rounds).push(ivv), ds);
            let left: u32 = (budget - rounds) as u32;
            &&& messages_of(server, bytes, rounds + 1) == Some((msgs, Seq::<u8>::empty()))
            &&& skipped(
                server.key,
                HandshakeState::AwaitIvv { session_id: sid, mux, budget },
                msgs.take(rounds as int),
            ) == Some(HandshakeState::AwaitIvv { session_id: sid, mux, budget: left })
            &&& decided(
                server.key,
                HandshakeState::AwaitIvv { session_id: sid, mux, budget: left },
                msgs[rounds as int],
            ) == (Verdict::Finish { session_id: sid, ivv, mux })
        },
{
    let ids: Seq<u128> = prelude(rounds).push(ivv);
    if ids_sent(client, ids, ds) is Ok {
        let bytes: Seq<u8> = ids_sent(client, ids, ds)->Ok_0;
        law_handshake_row_delivered(client, server, ids, ds, Seq::empty());
        assert(bytes + Seq::<u8>::empty() =~= bytes);
        assert(ids.take(rounds as int) =~= prelude(rounds));
        lemma_row_prelude_skipped(
            client.key,
            server.key,
            HandshakeState::AwaitIvv { session_id: sid, mux, budget },
            rounds,
            ids,
            ds,
        );
        assert(ds[rounds as int].possible(client.key, ids[rounds as int]));
        law_unpack_inverts_pack(client.key, server.key, ivv, ds[rounds as int].pack);
    }
}

// ---------------------------------------------------------------------------
// Transmissions
// ---------------------------------------------------------------------------

/// What the caller of a handshake function does next: write `send`, and unless
/// the state is `Done`, read a message and hand it to
/// [`Transmission::handshake_receive`].
pub struct HandshakeStep {
    /// Where the handshake stands.
    pub state: HandshakeState,
    /// Bytes to write to the transport.
    pub send: Vec<u8>,
}

/// A framed, encrypted, optionally base94-wrapped connection over any duplex
/// byte transport.
pub struct Transmission<T> {
    io: T,
    tx: TxCore,
    rx: RxCore,
    session_id: SessionId,
}

/// The sending direction during a handshake: at most `n` more packets were
/// sent, under the same configuration and at the same stage.
pub open spec fn progressed(before: TxModel, after: TxModel, n: nat) -> bool {
    &&& after.key == before.key
    &&& after.handshaked == before.handshaked
    &&& after.protocol.seq <= before.protocol.seq + n
    &&& after.transport.seq <= before.transport.seq + n
}

/// The nonce counters have room for a whole handshake.
pub open spec fn handshake_room(m: TxModel) -> bool {
    m.protocol.seq + 0x20_0000 <= u64::MAX && m.transport.seq + 0x20_0000 <= u64::MAX
}

impl<T> Transmission<T> {
    /// The sending direction.
    pub closed spec fn tx_model(&self) -> TxModel {
        self.tx@
    }

    /// The receiving direction.
    pub closed spec fn rx_model(&self) -> RxModel {
        self.rx@
    }

    /// The transport.
    pub closed spec fn transport(&self) -> T {
        self.io
    }

    /// The session id; zero before the handshake.
    pub closed spec fn id(&self) -> SessionId {
        self.session_id
    }

    /// Both directions have one valid configuration and are at one stage.
    pub open spec fn wf(&self) -> bool {
        &&& self.tx_model().key.valid()
        &&& self.rx_model().key == self.tx_model().key
        &&& self.rx_model().handshaked == self.tx_model().handshaked
    }

    /// Creates a transmission with a generator seeded by the operating system.
    /// Fails where the system has no entropy to give.
    pub fn new(io: T, key: ObfuscationKey) -> (r: Result<Transmission<T>, Error>)
        requires
            key.valid(),
        ensures
            r matches Ok(t) ==> t.wf() && t.transport() == io && t.tx_model() == TxModel::fresh(key)
                && t.rx_model() == RxModel::fresh(key) && t.id() == 0,
            r matches Err(e) ==> (e matches Error::Io(f) && f.kind == IoErrorKind::Other),
    {
        match system_rng() {
            Some(rng) => Ok(Self::with_rng(io, key, rng)),
            None => {
                Err(Error::Io(IoError::new(IoErrorKind::Other, "no entropy to seed the generator")))
            },
        }
    }

    /// Creates a transmission with an explicit generator.
    pub fn with_rng(io: T, key: ObfuscationKey, rng: StdRng) -> (r: Transmission<T>)
        requires
            key.valid(),
        ensures
            r.wf(),
            r.transport() == io,
            r.tx_model() == TxModel::fresh(key),
            r.rx_model() == RxModel::fresh(key),
            r.id() == 0,
    {
        let rx: RxCore = RxCore::new(key.clone());
        Transmission { io, tx: TxCore::new(key, rng), rx, session_id: 0 }
    }

    /// Whether the handshake completed and data-plane framing is active.
    pub fn is_handshaked(&self) -> (r: bool)
        ensures
            r == self.tx_model().handshaked,
    {
        self.tx.is_handshaked()
    }

    /// The negotiated session id (assigned by the server; 0 before the
    /// handshake).
    pub fn session_id(&self) -> (r: SessionId)
        ensures
            r == self.id(),
    {
        self.session_id
    }

    /// Access to the underlying transport.
    pub fn io(&self) -> (r: &T)
        ensures
            *r == self.transport(),
    {
        &self.io
    }

    /// Mutable access to the underlying transport.
    pub fn io_mut(&mut self) -> (r: &mut T)
        ensures
            *r == old(self).transport(),
            final(self).transport() == *final(r),
            final(self).tx_model() == old(self).tx_model(),
            final(self).rx_model() == old(self).rx_model(),
            final(self).id() == old(self).id(),
    {
        &mut self.io
    }

    /// Whether another message can be sent.
    pub fn can_send(&self) -> (r: bool)
        ensures
            r == self.tx_model().ready(),
    {
        self.tx.can_send()
    }

    /// Whether another message can be received.
    pub fn can_receive(&self) -> (r: bool)
        ensures
            r == self.rx_model().ready(),
    {
        self.rx.can_receive()
    }

    /// Whether the nonce counters have room for a whole handshake.
    pub fn can_handshake(&self) -> (r: bool)
        ensures
            r == handshake_room(self.tx_model()),
    {
        self.tx.has_room(0x20_0000)
    }

    /// Encrypts `plaintext` into a complete wire packet appended to `out`.
    pub fn encrypt_into(&mut self, out: &mut Vec<u8>, plaintext: &[u8]) -> (r: Result<(), Error>)
        requires
            old(self).tx_model().ready(),
        ensures
            exists|d: FrameDraws| #[trigger]
                d.possible() && final(self).tx_model() == old(self).tx_model().after(d, plaintext@)
                    && match old(self).tx_model().sent(d, plaintext@) {
                    Ok(packet) => r == Ok::<(), Error>(()) && final(out)@ == old(out)@ + packet,
                    Err(e) => r == Err::<(), Error>(e) && final(out)@ == old(out)@,
                },
            final(self).rx_model() == old(self).rx_model(),
            final(self).transport() == old(self).transport(),
            final(self).id() == old(self).id(),
    {
        self.tx.encrypt_into(out, plaintext)
    }

    /// Decrypts one complete wire packet (in-memory inverse of
    /// [`Transmission::encrypt_into`]).
    pub fn decrypt(&mut self, packet: &[u8]) -> (r: Result<Vec<u8>, Error>)
        requires
            old(self).rx_model().ready(),
        ensures
            match old(self).rx_model().received(packet@) {
                Ok(msg) => r matches Ok(v) && v@ == msg,
                Err(e) => r == Err::<Vec<u8>, Error>(e),
            },
            final(self).rx_model() == old(self).rx_model().after(packet@),
            final(self).tx_model() == old(self).tx_model(),
            final(self).transport() == old(self).transport(),
            final(self).id() == old(self).id(),
    {
        self.rx.decrypt(packet)
    }

    /// [`Transmission::decrypt`] where the message borrows `packet` (binary
    /// framing) or an internal buffer (base94 framing), overwritten by the next
    /// call.
    pub fn decrypt_in_place<'a>(&'a mut self, packet: &'a mut [u8]) -> (r: Result<&'a [u8], Error>)
        requires
            old(self).rx_model().ready(),
        ensures
            match old(self).rx_model().received(old(packet)@) {
                Ok(msg) => r matches Ok(v) && v@ == msg,
                Err(e) => r == Err::<&'a [u8], Error>(e),
            },
            enveloped(old(self).rx_model().key, old(self).rx_model().handshaked) ==> final(packet)@
                == old(packet)@,
            !enveloped(old(self).rx_model().key, old(self).rx_model().handshaked)
                ==> match old(self).rx_model().received(old(packet)@) {
                Ok(msg) => final(packet)@ == old(packet)@.take(3) + msg,
                Err(e) => final(packet)@ == old(packet)@,
            },
            final(self).rx_model() == old(self).rx_model().after(old(packet)@),
            final(self).tx_model() == old(self).tx_model(),
            final(self).transport() == old(self).transport(),
            final(self).id() == old(self).id(),
    {
        self.rx.decrypt_in_place(packet)
    }

    /// Encrypts one message and gives the bytes to write to the transport.
    pub fn write(&mut self, plaintext: &[u8]) -> (r: Result<Vec<u8>, Error>)
        requires
            old(self).tx_model().ready(),
        ensures
            exists|d: FrameDraws| #[trigger]
                d.possible() && final(self).tx_model() == old(self).tx_model().after(d, plaintext@)
                    && match old(self).tx_model().sent(d, plaintext@) {
                    Ok(packet) => r matches Ok(v) && v@ == packet,
                    Err(e) => r == Err::<Vec<u8>, Error>(e),
                },
            final(self).rx_model() == old(self).rx_model(),
            final(self).transport() == old(self).transport(),
            final(self).id() == old(self).id(),
    {
        self.tx.write(plaintext)
    }

    /// Reads one message off the front of bytes in memory.
    pub fn read(&mut self, input: &mut &[u8]) -> (r: Result<Vec<u8>, Error>)
        requires
            old(self).rx_model().ready(),
        ensures
            match old(self).rx_model().read((*old(input))@) {
                Received::Message(msg, used) => r matches Ok(v) && v@ == msg,
                Received::Cut => r matches Err(e) && old(self).rx_model().cut_error((*old(input))@, e),
                Received::Refused(e) => r == Err::<Vec<u8>, Error>(e),
            },
            (*final(input))@ == old(self).rx_model().read_rest((*old(input))@),
            final(self).rx_model() == old(self).rx_model().after_read((*old(input))@),
            final(self).tx_model() == old(self).tx_model(),
            final(self).transport() == old(self).transport(),
            final(self).id() == old(self).id(),
    {
        self.rx.read(input)
    }

    /// [`Transmission::read`] where the message borrows an internal buffer that
    /// the next call overwrites.
    pub fn read_buf<'a>(&'a mut self, input: &mut &[u8]) -> (r: Result<&'a [u8], Error>)
        requires
            old(self).rx_model().ready(),
        ensures
            match old(self).rx_model().read((*old(input))@) {
                Received::Message(msg, used) => r matches Ok(v) && v@ == msg,
                Received::Cut => r matches Err(e) && old(self).rx_model().cut_error((*old(input))@, e),
                Received::Refused(e) => r == Err::<&'a [u8], Error>(e),
            },
            (*final(input))@ == old(self).rx_model().read_rest((*old(input))@),
            final(self).rx_model() == old(self).rx_model().after_read((*old(input))@),
            final(self).tx_model() == old(self).tx_model(),
            final(self).transport() == old(self).transport(),
            final(self).id() == old(self).id(),
    {
        self.rx.read_buf(input)
    }

    /// The receiving direction, for reading a packet in pieces.
    pub fn receiver(&mut self) -> (r: &mut RxCore)
        ensures
            r@ == old(self).rx_model(),
            final(self).rx_model() == final(r)@,
            final(self).tx_model() == old(self).tx_model(),
            final(self).transport() == old(self).transport(),
            final(self).id() == old(self).id(),
    {
        &mut self.rx
    }

    /// Splits the connection for two threads: the sending half keeps the
    /// transport, the receiving half gets `rx_io`, which is to be another handle
    /// of the same connection.
    pub fn split_with(self, rx_io: T) -> (r: (TransmissionTx<T>, TransmissionRx<T>))
        ensures
            r.0.model() == self.tx_model(),
            r.0.transport() == self.transport(),
            r.1.model() == self.rx_model(),
            r.1.transport() == rx_io,
    {
        (TransmissionTx { io: self.io, core: self.tx }, TransmissionRx { io: rx_io, core: self.rx })
    }
}

/// Sending half of a [`Transmission`].
pub struct TransmissionTx<T> {
    io: T,
    core: TxCore,
}

impl<T> TransmissionTx<T> {
    /// The sending direction.
    pub closed spec fn model(&self) -> TxModel {
        self.core@
    }

    /// The transport.
    pub closed spec fn transport(&self) -> T {
        self.io
    }

    /// Whether the owning transmission completed its handshake.
    pub fn is_handshaked(&self) -> (r: bool)
        ensures
            r == self.model().handshaked,
    {
        self.core.is_handshaked()
    }

    /// Access to the underlying transport (write side).
    pub fn io(&self) -> (r: &T)
        ensures
            *r == self.transport(),
    {
        &self.io
    }

    /// Mutable access to the underlying transport.
    pub fn io_mut(&mut self) -> (r: &mut T)
        ensures
            *r == old(self).transport(),
            final(self).transport() == *final(r),
            final(self).model() == old(self).model(),
    {
        &mut self.io
    }

    /// Whether another message can be sent.
    pub fn can_send(&self) -> (r: bool)
        ensures
            r == self.model().ready(),
    {
        self.core.can_send()
    }

    /// Encrypts `plaintext` into a complete wire packet appended to `out`.
    pub fn encrypt_into(&mut self, out: &mut Vec<u8>, plaintext: &[u8]) -> (r: Result<(), Error>)
        requires
            old(self).model().ready(),
        ensures
            exists|d: FrameDraws| #[trigger]
                d.possible() && final(self).model() == old(self).model().after(d, plaintext@)
                    && match old(self).model().sent(d, plaintext@) {
                    Ok(packet) => r == Ok::<(), Error>(()) && final(out)@ == old(out)@ + packet,
                    Err(e) => r == Err::<(), Error>(e) && final(out)@ == old(out)@,
                },
            final(self).transport() == old(self).transport(),
    {
        self.core.encrypt_into(out, plaintext)
    }

    /// Encrypts one message and gives the bytes to write to the transport.
    pub fn write(&mut self, plaintext: &[u8]) -> (r: Result<Vec<u8>, Error>)
        requires
            old(self).model().ready(),
        ensures
            exists|d: FrameDraws| #[trigger]
                d.possible() && final(self).model() == old(self).model().after(d, plaintext@)
                    && match old(self).model().sent(d, plaintext@) {
                    Ok(packet) => r matches Ok(v) && v@ == packet,
                    Err(e) => r == Err::<Vec<u8>, Error>(e),
                },
            final(self).transport() == old(self).transport(),
    {
        self.core.write(plaintext)
    }

    /// Tagged variant of [`TransmissionTx::write`]: the message is the tag
    /// followed by the payload.
    pub fn write_tagged(&mut self, tag: u8, payload: &[u8]) -> (r: Result<Vec<u8>, Error>)
        requires
            old(self).model().ready(),
            payload@.len() < usize::MAX,
        ensures
            exists|d: FrameDraws| #[trigger]
                d.possible() && final(self).model() == old(self).model().after(
                    d,
                    seq![tag] + payload@,
                ) && match old(self).model().sent(d, seq![tag] + payload@) {
                    Ok(packet) => r matches Ok(v) && v@ == packet,
                    Err(e) => r == Err::<Vec<u8>, Error>(e),
                },
            final(self).transport() == old(self).transport(),
    {
        self.core.write_tagged(tag, payload)
    }
}

/// Receiving half of a [`Transmission`].
pub struct TransmissionRx<T> {
    io: T,
    core: RxCore,
}

impl<T> TransmissionRx<T> {
    /// The receiving direction.
    pub closed spec fn model(&self) -> RxModel {
        self.core@
    }

    /// The transport.
    pub closed spec fn transport(&self) -> T {
        self.io
    }

    /// Whether the owning transmission completed its handshake.
    pub fn is_handshaked(&self) -> (r: bool)
        ensures
            r == self.model().handshaked,
    {
        self.core.is_handshaked()
    }

    /// Access to the underlying transport (read side).
    pub fn io(&self) -> (r: &T)
        ensures
            *r == self.transport(),
    {
        &self.io
    }

    /// Mutable access to the underlying transport.
    pub fn io_mut(&mut self) -> (r: &mut T)
        ensures
            *r == old(self).transport(),
            final(self).transport() == *final(r),
            final(self).model() == old(self).model(),
    {
        &mut self.io
    }

    /// Whether another message can be received.
    pub fn can_receive(&self) -> (r: bool)
        ensures
            r == self.model().ready(),
    {
        self.core.can_receive()
    }

    /// Reads one message off the front of bytes in memory.
    pub fn read(&mut self, input: &mut &[u8]) -> (r: Result<Vec<u8>, Error>)
        requires
            old(self).model().ready(),
        ensures
            match old(self).model().read((*old(input))@) {
                Received::Message(msg, used) => r matches Ok(v) && v@ == msg,
                Received::Cut => r matches Err(e) && old(self).model().cut_error((*old(input))@, e),
                Received::Refused(e) => r == Err::<Vec<u8>, Error>(e),
            },
            (*final(input))@ == old(self).model().read_rest((*old(input))@),
            final(self).model() == old(self).model().after_read((*old(input))@),
            final(self).transport() == old(self).transport(),
    {
        self.core.read(input)
    }

    /// [`TransmissionRx::read`] where the message borrows an internal buffer
    /// that the next call overwrites.
    pub fn read_buf<'a>(&'a mut self, input: &mut &[u8]) -> (r: Result<&'a [u8], Error>)
        requires
            old(self).model().ready(),
        ensures
            match old(self).model().read((*old(input))@) {
                Received::Message(msg, used) => r matches Ok(v) && v@ == msg,
                Received::Cut => r matches Err(e) && old(self).model().cut_error((*old(input))@, e),
                Received::Refused(e) => r == Err::<&'a [u8], Error>(e),
            },
            (*final(input))@ == old(self).model().read_rest((*old(input))@),
            final(self).model() == old(self).model().after_read((*old(input))@),
            final(self).transport() == old(self).transport(),
    {
        self.core.read_buf(input)
    }

    /// Decrypts one complete wire packet; the message borrows `packet` (binary
    /// framing) or an internal buffer (base94 framing).
    pub fn decrypt_in_place<'a>(&'a mut self, packet: &'a mut [u8]) -> (r: Result<&'a [u8], Error>)
        requires
            old(self).model().ready(),
        ensures
            match old(self).model().received(old(packet)@) {
                Ok(msg) => r matches Ok(v) && v@ == msg,
                Err(e) => r == Err::<&'a [u8], Error>(e),
            },
            enveloped(old(self).model().key, old(self).model().handshaked) ==> final(packet)@
                == old(packet)@,
            !enveloped(old(self).model().key, old(self).model().handshaked)
                ==> match old(self).model().received(old(packet)@) {
                Ok(msg) => final(packet)@ == old(packet)@.take(3) + msg,
                Err(e) => final(packet)@ == old(packet)@,
            },
            final(self).model() == old(self).model().after(old(packet)@),
            final(self).transport() == old(self).transport(),
    {
        self.core.decrypt_in_place(packet)
    }

    /// The receiving direction, for reading a packet in pieces.
    pub fn receiver(&mut self) -> (r: &mut RxCore)
        ensures
            r@ == old(self).model(),
            final(self).model() == final(r)@,
            final(self).transport() == old(self).transport(),
    {
        &mut self.core
    }
}

// ---------------------------------------------------------------------------
// Running the handshake
// ---------------------------------------------------------------------------

/// Decides what to do about a handshake message.
pub fn decide(key: &ObfuscationKey, state: HandshakeState, msg: &[u8]) -> (r: Verdict)
    ensures
        r == decided(*key, state, msg@),
{
    let id: SessionId = match unpack_session_id(key, msg) {
        Err(e) => return Verdict::Fail(e),
        Ok(SessionPacket::Dummy) => {
            return match state {
                HandshakeState::AwaitSid { budget } => if budget == 0 {
                    Verdict::Fail(Error::HandshakeFailed("too many dummy packets"))
                } else {
                    Verdict::Skip(HandshakeState::AwaitSid { budget: budget - 1 })
                },
                HandshakeState::AwaitMux { sid, ivv, budget } => if budget == 0 {
                    Verdict::Fail(Error::HandshakeFailed("too many dummy packets"))
                } else {
                    Verdict::Skip(HandshakeState::AwaitMux { sid, ivv, budget: budget - 1 })
                },
                HandshakeState::AwaitIvv { session_id, mux, budget } => if budget == 0 {
                    Verdict::Fail(Error::HandshakeFailed("too many dummy packets"))
                } else {
                    Verdict::Skip(HandshakeState::AwaitIvv { session_id, mux, budget: budget - 1 })
                },
                HandshakeState::Done { session_id, mux } => Verdict::Fail(
                    Error::HandshakeFailed("too many dummy packets"),
                ),
            };
        },
        Ok(SessionPacket::Session(id)) => id,
    };
    match state {
        HandshakeState::AwaitSid { budget } => if id == 0 {
            Verdict::Fail(Error::HandshakeFailed("server session id is zero"))
        } else {
            Verdict::SendIvv { sid: id }
        },
        HandshakeState::AwaitMux { sid, ivv, budget } => if id == 0 {
            Verdict::Fail(Error::HandshakeFailed("nmux is zero"))
        } else if !check_canary(key, id) {
            Verdict::Fail(Error::FlagsMismatch)
        } else {
            Verdict::Finish { session_id: sid, ivv, mux: id % 2 == 1 }
        },
        HandshakeState::AwaitIvv { session_id, mux, budget } => if id == 0 {
            Verdict::Fail(Error::HandshakeFailed("client ivv is zero"))
        } else {
            Verdict::Finish { session_id, ivv: id, mux }
        },
        HandshakeState::Done { session_id, mux } => Verdict::Fail(Error::InvalidSessionId),
    }
}

/// What sending a row of handshake packets does to the sending direction and
/// to the bytes to write.
#[verifier::opaque]
pub open spec fn row_sent(
    before: TxModel,
    after: TxModel,
    ids: Seq<u128>,
    ds: Seq<SendDraws>,
    bytes: Result<Seq<u8>, Error>,
) -> bool {
    &&& draws_possible(before.key, ids, ds)
    &&& after == after_ids(before, ids, ds)
    &&& bytes == ids_sent(before, ids, ds)
}

proof fn lemma_row_step(
    start: TxModel,
    mid: TxModel,
    ids: Seq<u128>,
    ds: Seq<SendDraws>,
    bytes: Seq<u8>,
    id: u128,
    d: SendDraws,
)
    requires
        row_sent(start, mid, ids, ds, Ok(bytes)),
        d.possible(start.key, id),
    ensures
        row_sent(
            start,
            after_id(mid, id, d),
            ids.push(id),
            ds.push(d),
            match id_sent(mid, id, d) {
                Ok(p) => Ok(bytes + p),
                Err(e) => Err(e),
            },
        ),
{
    reveal(row_sent);
    assert(ids.push(id).drop_last() =~= ids);
    assert(ds.push(d).drop_last() =~= ds);
}

impl TxCore {
    /// Encrypts one (possibly noise) session-id packet and appends it to `out`.
    fn send_session_id(&mut self, out: &mut Vec<u8>, id: SessionId) -> (r: Result<(), Error>)
        requires
            old(self)@.ready(),
        ensures
            exists|d: SendDraws| #[trigger]
                d.possible(old(self)@.key, id) && final(self)@ == after_id(old(self)@, id, d)
                    && match id_sent(old(self)@, id, d) {
                    Ok(packet) => r == Ok::<(), Error>(()) && final(out)@ == old(out)@ + packet,
                    Err(e) => r == Err::<(), Error>(e) && final(out)@ == old(out)@,
                },
            final(self)@.key == old(self)@.key,
            final(self)@.handshaked == old(self)@.handshaked,
            final(self)@.protocol.seq <= old(self)@.protocol.seq + 1,
            final(self)@.transport.seq <= old(self)@.transport.seq + 1,
    {
        let ghost start: TxModel = self@;
        let packet: Vec<u8> = self.pack_id(id);
        let ghost pack: PackDraws = choose|p: PackDraws| #[trigger]
            p.possible(start.key, id) && packet@ == packed(start.key, id, p);
        let ghost base: Seq<u8> = out@;
        let r: Result<(), Error> = self.encrypt_into(out, packet.as_slice());
        proof {
            let frame: FrameDraws = choose|d: FrameDraws| #[trigger]
                d.possible() && self@ == start.after(d, packet@) && match start.sent(d, packet@) {
                    Ok(p) => r == Ok::<(), Error>(()) && out@ == base + p,
                    Err(e) => r == Err::<(), Error>(e) && out@ == base,
                };
            let d: SendDraws = SendDraws { pack, frame };
            assert(d.possible(start.key, id));
        }
        r
    }
}

/// A possible outcome of the draws of a packet.
pub open spec fn plain_draws(key: ObfuscationKey, id: u128) -> SendDraws {
    SendDraws {
        pack: PackDraws {
            kfs: seq![
                if id != 0 {
                    0u8
                } else {
                    0x80u8
                },
                1u8,
                1u8,
                1u8,
            ],
            noise: 1,
            separator: 0x20,
            pad: Seq::new(padding(key) as nat, |i: int| 0x20u8),
            tail: seq![0x20u8],
        },
        frame: FrameDraws { seed: 1, k: 0x20, filler: 0x20 },
    }
}

/// A row of packets that has failed stays so, whatever else was to be sent.
proof fn lemma_row_failed(
    start: TxModel,
    end: TxModel,
    ids: Seq<u128>,
    ds: Seq<SendDraws>,
    e: Error,
    more: Seq<u128>,
) -> (all: Seq<SendDraws>)
    requires
        row_sent(start, end, ids, ds, Err(e)),
    ensures
        row_sent(start, end, ids + more, all, Err(e)),
    decreases more.len(),
{
    if more.len() == 0 {
        assert(ids + more =~= ids);
        ds
    } else {
        reveal(row_sent);
        let part: Seq<SendDraws> = lemma_row_failed(start, end, ids, ds, e, more.drop_last());
        let d: SendDraws = plain_draws(start.key, more.last());
        assert(d.possible(start.key, more.last()));
        let all: Seq<SendDraws> = part.push(d);
        let whole: Seq<u128> = ids + more;
        assert(whole.drop_last() =~= ids + more.drop_last());
        assert(all.drop_last() =~= part);
        assert forall|i: int| 0 <= i < whole.len() implies (#[trigger] all[i]).possible(
            start.key,
            whole[i],
        ) by {
            if i < part.len() {
                assert(part[i].possible(start.key, whole.drop_last()[i]));
            }
        }
        all
    }
}

/// The bytes that a handshake step sends.
pub open spec fn step_bytes(r: Result<HandshakeStep, Error>) -> Result<Seq<u8>, Error> {
    match r {
        Ok(step) => Ok(step.send@),
        Err(e) => Err(e),
    }
}

/// The bytes of a result.
pub open spec fn result_bytes(r: Result<Vec<u8>, Error>) -> Result<Seq<u8>, Error> {
    match r {
        Ok(v) => Ok(v@),
        Err(e) => Err(e),
    }
}

proof fn lemma_noise_bound(key: ObfuscationKey)
    requires
        key.valid(),
    ensures
        noise_packets(noise_high(key)) <= 750,
{
    lemma2_to64();
    if key.kl < 20 {
        lemma_pow2_strictly_increases(key.kl as nat, 20);
    }
    if key.kh < 20 {
        lemma_pow2_strictly_increases(key.kh as nat, 20);
    }
}

impl TxCore {
    /// Encrypts the noise prelude.
    fn send_prelude(&mut self, rounds: u32) -> (r: Result<Vec<u8>, Error>)
        requires
            old(self)@.protocol.seq + rounds <= u64::MAX,
            old(self)@.transport.seq + rounds <= u64::MAX,
        ensures
            exists|ds: Seq<SendDraws>|
                #[trigger] row_sent(
                    old(self)@,
                    final(self)@,
                    prelude(rounds as nat),
                    ds,
                    result_bytes(r),
                ),
            final(self)@.key == old(self)@.key,
            final(self)@.handshaked == old(self)@.handshaked,
            final(self)@.protocol.seq <= old(self)@.protocol.seq + rounds,
            final(self)@.transport.seq <= old(self)@.transport.seq + rounds,
    {
        let ghost start: TxModel = self@;
        let ghost mut ds: Seq<SendDraws> = Seq::empty();
        let mut out: Vec<u8> = Vec::new();
        let mut i: u32 = 0;
        proof {
            reveal(row_sent);
            assert(prelude(0) =~= Seq::<u128>::empty());
            assert(row_sent(start, self@, prelude(0), ds, Ok(out@)));
        }
        while i < rounds
            invariant
                i <= rounds,
                start == old(self)@,
                self@.key == start.key,
                self@.handshaked == start.handshaked,
                row_sent(start, self@, prelude(i as nat), ds, Ok(out@)),
                self@.protocol.seq <= start.protocol.seq + i,
                self@.transport.seq <= start.transport.seq + i,
                start.protocol.seq + rounds <= u64::MAX,
                start.transport.seq + rounds <= u64::MAX,
            decreases rounds - i,
        {
            let sent: Result<Vec<u8>, Error> = self.send_next(
                out,
                0,
                Ghost(start),
                Ghost(prelude(i as nat)),
                Ghost(ds),
            );
            proof {
                let d: SendDraws = choose|d: SendDraws|
                    row_sent(
                        start,
                        self@,
                        prelude(i as nat).push(0),
                        #[trigger] ds.push(d),
                        result_bytes(sent),
                    );
                assert(prelude(i as nat).push(0) =~= prelude((i + 1) as nat));
                ds = ds.push(d);
            }
            match sent {
                Ok(v) => {
                    out = v;
                },
                Err(e) => {
                    proof {
                        let more: Seq<u128> = prelude((rounds - i - 1) as nat);
                        assert(prelude((i + 1) as nat) + more =~= prelude(rounds as nat));
                        let all: Seq<SendDraws> = lemma_row_failed(
                            start,
                            self@,
                            prelude((i + 1) as nat),
                            ds,
                            e,
                            more,
                        );
                    }
                    return Err(e);
                },
            }
            i += 1;
        }
        Ok(out)
    }
}

impl TxCore {
    /// Encrypts what a server sends in a handshake.
    fn send_offer(&mut self, rounds: u32, session_id: SessionId, mux: bool) -> (r: Result<
        Vec<u8>,
        Error,
    >)
        requires
            old(self)@.protocol.seq + rounds + 2 <= u64::MAX,
            old(self)@.transport.seq + rounds + 2 <= u64::MAX,
        ensures
            exists|low: u64, ds: Seq<SendDraws>|
                #[trigger] row_sent(
                    old(self)@,
                    final(self)@,
                    offer(old(self)@.key, rounds as nat, session_id, low, mux),
                    ds,
                    result_bytes(r),
                ),
            progressed(old(self)@, final(self)@, (rounds + 2) as nat),
    {
        let ghost start: TxModel = self@;
        let ghost ids0: Seq<u128> = prelude(rounds as nat);
        let sent: Result<Vec<u8>, Error> = self.send_prelude(rounds);
        let ghost ds0: Seq<SendDraws> = choose|ds: Seq<SendDraws>|
            #[trigger] row_sent(start, self@, ids0, ds, result_bytes(sent));
        let out: Vec<u8> = match sent {
            Ok(v) => v,
            Err(e) => {
                proof {
                    let ids: Seq<u128> = offer(start.key, rounds as nat, session_id, 0, mux);
                    let more: Seq<u128> = seq![session_id, nmux_of(start.key, 0, mux)];
                    assert(ids0 + more =~= ids);
                    let all: Seq<SendDraws> = lemma_row_failed(start, self@, ids0, ds0, e, more);
                    assert(row_sent(start, self@, ids, all, Err(e)));
                }
                return Err(e);
            },
        };
        let sent: Result<Vec<u8>, Error> = self.send_next(
            out,
            session_id,
            Ghost(start),
            Ghost(ids0),
            Ghost(ds0),
        );
        let ghost ids1: Seq<u128> = ids0.push(session_id);
        let ghost d1: SendDraws = choose|d: SendDraws|
            row_sent(start, self@, ids1, #[trigger] ds0.push(d), result_bytes(sent));
        let ghost ds1: Seq<SendDraws> = ds0.push(d1);
        let out: Vec<u8> = match sent {
            Ok(v) => v,
            Err(e) => {
                proof {
                    let ids: Seq<u128> = offer(start.key, rounds as nat, session_id, 0, mux);
                    let more: Seq<u128> = seq![nmux_of(start.key, 0, mux)];
                    assert(ids1 + more =~= ids);
                    let all: Seq<SendDraws> = lemma_row_failed(start, self@, ids1, ds1, e, more);
                    assert(row_sent(start, self@, ids, all, Err(e)));
                }
                return Err(e);
            },
        };
        let low: u64 = self.draw_u64();
        let nmux: u128 = build_nmux(self.key(), low, mux);
        let sent: Result<Vec<u8>, Error> = self.send_next(
            out,
            nmux,
            Ghost(start),
            Ghost(ids1),
            Ghost(ds1),
        );
        proof {
            let d2: SendDraws = choose|d: SendDraws|
                row_sent(start, self@, ids1.push(nmux), #[trigger] ds1.push(d), result_bytes(sent));
            assert(row_sent(
                start,
                self@,
                offer(start.key, rounds as nat, session_id, low, mux),
                ds1.push(d2),
                result_bytes(sent),
            ));
        }
        sent
    }

    /// Encrypts one more packet behind a row of packets.
    fn send_next(
        &mut self,
        out: Vec<u8>,
        id: SessionId,
        Ghost(start): Ghost<TxModel>,
        Ghost(ids): Ghost<Seq<u128>>,
        Ghost(ds): Ghost<Seq<SendDraws>>,
    ) -> (r: Result<Vec<u8>, Error>)
        requires
            old(self)@.ready(),
            old(self)@.key == start.key,
            row_sent(start, old(self)@, ids, ds, Ok(out@)),
        ensures
            exists|d: SendDraws|
                row_sent(
                    start,
                    final(self)@,
                    ids.push(id),
                    #[trigger] ds.push(d),
                    result_bytes(r),
                ),
            progressed(old(self)@, final(self)@, 1),
    {
        let ghost mid: TxModel = self@;
        let ghost bytes: Seq<u8> = out@;
        let mut out: Vec<u8> = out;
        let r: Result<(), Error> = self.send_session_id(&mut out, id);
        let ghost d: SendDraws = choose|d: SendDraws| #[trigger]
            d.possible(mid.key, id) && self@ == after_id(mid, id, d) && match id_sent(mid, id, d) {
                Ok(packet) => r == Ok::<(), Error>(()) && out@ == bytes + packet,
                Err(e) => r == Err::<(), Error>(e) && out@ == bytes,
            };
        proof {
            lemma_row_step(start, mid, ids, ds, bytes, id, d);
        }
        match r {
            Ok(()) => {
                assert(row_sent(start, self@, ids.push(id), ds.push(d), Ok(out@)));
                Ok(out)
            },
            Err(e) => {
                assert(row_sent(start, self@, ids.push(id), ds.push(d), Err(e)));
                Err(e)
            },
        }
    }
}

impl<T> Transmission<T> {
    /// Starts the client side of a handshake: the noise prelude goes out, then
    /// the session id of the server is awaited.
    pub fn handshake_client(&mut self) -> (r: Result<HandshakeStep, Error>)
        requires
            old(self).wf(),
            handshake_room(old(self).tx_model()),
        ensures
            exists|rounds: nat, ds: Seq<SendDraws>|
                prelude_len(old(self).tx_model().key, rounds) && #[trigger] row_sent(
                    old(self).tx_model(),
                    final(self).tx_model(),
                    prelude(rounds),
                    ds,
                    step_bytes(r),
                ),
            r matches Ok(step) ==> step.state == (HandshakeState::AwaitSid {
                budget: noise_packets(noise_high(old(self).tx_model().key)) as u32,
            }),
            progressed(old(self).tx_model(), final(self).tx_model(), 750),
            final(self).wf(),
            final(self).rx_model() == old(self).rx_model(),
            final(self).transport() == old(self).transport(),
            final(self).id() == old(self).id(),
    {
        proof {
            lemma_noise_bound(self.tx@.key);
        }
        let ghost start: TxModel = self.tx@;
        let rounds: u32 = self.tx.draw_rounds();
        let sent: Result<Vec<u8>, Error> = self.tx.send_prelude(rounds);
        let ghost ds: Seq<SendDraws> = choose|ds: Seq<SendDraws>|
            #[trigger] row_sent(start, self.tx@, prelude(rounds as nat), ds, result_bytes(sent));
        assert(prelude_len(start.key, rounds as nat));
        let budget: u32 = max_nop_packets(self.tx.key());
        match sent {
            Ok(send) => {
                let step: HandshakeStep = HandshakeStep {
                    state: HandshakeState::AwaitSid { budget },
                    send,
                };
                assert(row_sent(start, self.tx@, prelude(rounds as nat), ds, Ok(step.send@)));
                Ok(step)
            },
            Err(e) => Err(e),
        }
    }

    /// Starts the server side of a handshake for a non-zero `session_id`: the
    /// noise prelude, the session id and `nmux` go out, then the `ivv` of the
    /// client is awaited. `mux` is the multiplexing decision for the client.
    pub fn handshake_server(&mut self, session_id: SessionId, mux: bool) -> (r: Result<
        HandshakeStep,
        Error,
    >)
        requires
            old(self).wf(),
            handshake_room(old(self).tx_model()),
        ensures
            session_id == 0 ==> r == Err::<HandshakeStep, Error>(Error::InvalidSessionId)
                && final(self).tx_model() == old(self).tx_model(),
            session_id != 0 ==> exists|rounds: nat, low: u64, ds: Seq<SendDraws>|
                prelude_len(old(self).tx_model().key, rounds) && #[trigger] row_sent(
                    old(self).tx_model(),
                    final(self).tx_model(),
                    offer(old(self).tx_model().key, rounds, session_id, low, mux),
                    ds,
                    step_bytes(r),
                ),
            r matches Ok(step) ==> step.state == (HandshakeState::AwaitIvv {
                session_id,
                mux,
                budget: noise_packets(noise_high(old(self).tx_model().key)) as u32,
            }),
            progressed(old(self).tx_model(), final(self).tx_model(), 752),
            final(self).wf(),
            final(self).rx_model() == old(self).rx_model(),
            final(self).transport() == old(self).transport(),
            final(self).id() == old(self).id(),
    {
        if session_id == 0 {
            return Err(Error::InvalidSessionId);
        }
        proof {
            lemma_noise_bound(self.tx@.key);
        }
        let ghost start: TxModel = self.tx@;
        let rounds: u32 = self.tx.draw_rounds();
        assert(prelude_len(start.key, rounds as nat));
        let sent: Result<Vec<u8>, Error> = self.tx.send_offer(rounds, session_id, mux);
        let ghost (low, ds): (u64, Seq<SendDraws>) = choose|low: u64, ds: Seq<SendDraws>|
            #[trigger] row_sent(
                start,
                self.tx@,
                offer(start.key, rounds as nat, session_id, low, mux),
                ds,
                result_bytes(sent),
            );
        let budget: u32 = max_nop_packets(self.tx.key());
        match sent {
            Ok(send) => {
                let step: HandshakeStep = HandshakeStep {
                    state: HandshakeState::AwaitIvv { session_id, mux, budget },
                    send,
                };
                assert(row_sent(
                    start,
                    self.tx@,
                    offer(start.key, rounds as nat, session_id, low, mux),
                    ds,
                    Ok(step.send@),
                ));
                Ok(step)
            },
            Err(e) => {
                assert(row_sent(
                    start,
                    self.tx@,
                    offer(start.key, rounds as nat, session_id, low, mux),
                    ds,
                    Err(e),
                ));
                Err(e)
            },
        }
    }

    /// Answers the session id of a server with the key material `ivv`: the
    /// client sends it and awaits `nmux`.
    pub fn accept_sid(&mut self, sid: SessionId, ivv: u128) -> (r: Result<HandshakeStep, Error>)
        requires
            old(self).wf(),
            handshake_room(old(self).tx_model()),
        ensures
            ivv == 0 ==> r == Err::<HandshakeStep, Error>(
                Error::HandshakeFailed("ivv generated as zero"),
            ) && final(self).tx_model() == old(self).tx_model(),
            ivv != 0 ==> exists|d: SendDraws| #[trigger]
                d.possible(old(self).tx_model().key, ivv) && final(self).tx_model() == after_id(
                    old(self).tx_model(),
                    ivv,
                    d,
                ) && step_bytes(r) == id_sent(old(self).tx_model(), ivv, d),
            r matches Ok(step) ==> step.state == (HandshakeState::AwaitMux {
                sid,
                ivv,
                budget: noise_packets(noise_high(old(self).tx_model().key)) as u32,
            }),
            progressed(old(self).tx_model(), final(self).tx_model(), 1),
            final(self).wf(),
            final(self).rx_model() == old(self).rx_model(),
            final(self).transport() == old(self).transport(),
            final(self).id() == old(self).id(),
    {
        if ivv == 0 {
            return Err(Error::HandshakeFailed("ivv generated as zero"));
        }
        proof {
            lemma_noise_bound(self.tx@.key);
        }
        let ghost start: TxModel = self.tx@;
        let mut out: Vec<u8> = Vec::new();
        let r: Result<(), Error> = self.tx.send_session_id(&mut out, ivv);
        let ghost d: SendDraws = choose|d: SendDraws| #[trigger]
            d.possible(start.key, ivv) && self.tx@ == after_id(start, ivv, d) && match id_sent(
                start,
                ivv,
                d,
            ) {
                Ok(packet) => r == Ok::<(), Error>(()) && out@ == Seq::<u8>::empty() + packet,
                Err(e) => r == Err::<(), Error>(e) && out@ == Seq::<u8>::empty(),
            };
        assert(d.possible(start.key, ivv));
        match r {
            Ok(()) => {},
            Err(e) => return Err(e),
        }
        assert(Seq::<u8>::empty() + id_sent(start, ivv, d)->Ok_0 =~= id_sent(start, ivv, d)->Ok_0);
        let budget: u32 = max_nop_packets(self.tx.key());
        Ok(HandshakeStep { state: HandshakeState::AwaitMux { sid, ivv, budget }, send: out })
    }

    /// Takes the next message of a handshake in progress.
    pub fn handshake_receive(&mut self, state: HandshakeState, msg: &[u8]) -> (r: Result<
        HandshakeStep,
        Error,
    >)
        requires
            old(self).wf(),
            handshake_room(old(self).tx_model()),
        ensures
            match decided(old(self).tx_model().key, state, msg@) {
                Verdict::Fail(e) => r == Err::<HandshakeStep, Error>(e) && final(self).tx_model()
                    == old(self).tx_model(),
                Verdict::Skip(next) => (r matches Ok(step) && step.state == next
                    && step.send@.len() == 0) && final(self).tx_model() == old(self).tx_model(),
                Verdict::Finish { session_id, ivv, mux } => {
                    &&& r matches Ok(step) && step.state == (HandshakeState::Done {
                        session_id,
                        mux,
                    }) && step.send@.len() == 0
                    &&& final(self).tx_model() == old(self).tx_model().established(ivv)
                },
                Verdict::SendIvv { sid } => exists|ivv: u128, d: SendDraws| #[trigger]
                    d.possible(old(self).tx_model().key, ivv) && (ivv == 0 ==> r == Err::<
                        HandshakeStep,
                        Error,
                    >(Error::HandshakeFailed("ivv generated as zero")) && final(self).tx_model()
                        == old(self).tx_model()) && (ivv != 0 ==> final(self).tx_model()
                        == after_id(old(self).tx_model(), ivv, d) && step_bytes(r) == id_sent(
                        old(self).tx_model(),
                        ivv,
                        d,
                    ) && (r matches Ok(step) ==> step.state == (HandshakeState::AwaitMux {
                        sid,
                        ivv,
                        budget: noise_packets(noise_high(old(self).tx_model().key)) as u32,
                    }))),
            },
            match decided(old(self).tx_model().key, state, msg@) {
                Verdict::Finish { session_id, ivv, mux } => final(self).id() == session_id
                    && final(self).rx_model() == old(self).rx_model().established(ivv),
                _ => final(self).id() == old(self).id()
                    && final(self).rx_model() == old(self).rx_model()
                    && progressed(old(self).tx_model(), final(self).tx_model(), 1),
            },
            final(self).wf(),
            final(self).transport() == old(self).transport(),
    {
        match decide(self.tx.key(), state, msg) {
            Verdict::Fail(e) => Err(e),
            Verdict::Skip(next) => Ok(HandshakeStep { state: next, send: Vec::new() }),
            Verdict::SendIvv { sid } => {
                let ivv: u128 = self.tx.draw_u128();
                let ghost start: TxModel = self.tx@;
                let r: Result<HandshakeStep, Error> = self.accept_sid(sid, ivv);
                proof {
                    if ivv == 0 {
                        assert(plain_draws(start.key, 0).possible(start.key, ivv));
                    }
                }
                r
            },
            Verdict::Finish { session_id, ivv, mux } => {
                self.tx.establish(ivv);
                self.rx.establish(ivv);
                self.session_id = session_id;
                Ok(
                    HandshakeStep {
                        state: HandshakeState::Done { session_id, mux },
                        send: Vec::new(),
                    },
                )
            },
        }
    }
}

} // verus!
