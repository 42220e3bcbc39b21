//! Application layer tunneled above the transmission.
//!
//! Once the handshake completes, the connection carries a tiny proxy protocol:
//!
//! ```text
//! client -> server : [ATYP][addr][port BE16]     connect request
//! server -> client : [STATUS]                    1-byte connect result
//! both          : [FRAME_DATA][payload...]       data frame (payload non-empty)
//! both          : [FRAME_EOF]                    half-close (forward TCP FIN)
//! ```

use vstd::prelude::*;

verus! {

/// Data frame marker: the rest of the message is payload.
pub const FRAME_DATA: u8 = 0x00;

/// Half-close frame marker: forward a TCP write-side shutdown.
pub const FRAME_EOF: u8 = 0x01;

/// Connect response: target connected, tunnel established.
pub const STATUS_OK: u8 = 0x00;

/// Connect response: the server could not connect to the target.
pub const STATUS_REFUSED: u8 = 0x01;

/// Whether a connect response says that the tunnel is established.
pub fn reply_accepted(reply: &[u8]) -> (r: bool)
    ensures
        r == (reply@.len() > 0 && reply@[0] == STATUS_OK),
{
    reply.len() > 0 && reply[0] == STATUS_OK
}

} // verus!
