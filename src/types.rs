//! Plain records exchanged with the host.

use vstd::prelude::*;

verus! {

/// The result of one round of a signing protocol, for hosts that keep the
/// machine's state between round trips.
pub struct RoundResult {
    /// The machine's state, opaque to the host.
    pub state: Vec<u8>,
    /// Messages to send to the other parties.
    pub outgoing: Vec<MpcMessage>,
    /// Whether the protocol has finished.
    pub finished: bool,
}

/// A message from one party, as the driver produced it: the recipient is a
/// position within the signing group.
#[derive(Clone, Debug)]
pub struct MpcMessage {
    pub sender: u16,
    pub recipient: MpcRecipient,
    /// Base64 of the serialized protocol message.
    pub payload: String,
}

#[derive(Clone, Debug)]
pub enum MpcRecipient {
    Broadcast(String),
    Party(u16),
}

/// An ECDSA signature: `r` and `s`, each 32 bytes big-endian, `s` in low form.
#[derive(Clone, Debug)]
pub struct SignatureResult {
    pub r: Vec<u8>,
    pub s: Vec<u8>,
}

/// The bytes of `r` and `s`, if there is a signature.
pub open spec fn signature_view(o: Option<SignatureResult>) -> Option<(Seq<u8>, Seq<u8>)> {
    match o {
        Some(sig) => Some((sig.r@, sig.s@)),
        None => None,
    }
}

/// A copy of an optional signature.
pub fn copy_signature(o: &Option<SignatureResult>) -> (r: Option<SignatureResult>)
    ensures
        signature_view(r) == signature_view(*o),
{
    match o {
        Some(sig) => {
            let r = sig.r.clone();
            let s = sig.s.clone();
            assert(r@ =~= sig.r@);
            assert(s@ =~= sig.s@);
            Some(SignatureResult { r, s })
        },
        None => None,
    }
}

} // verus!
