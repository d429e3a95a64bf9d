//! Interactive signing: one party's session, the translation between keygen
//! indices on the wire and positions within the signing group, and the store
//! of live sessions.

use vstd::prelude::*;
use vstd::string::{StringExecFns, StringSliceAdditionalSpecFns};

use crate::codec::{
    base64_decode, base64_encode, base64_text, hex_bytes, hex_decode, hex_encode, hex_text, is_base64, is_hex,
};
use crate::driver::{Destination, DriveOutcome, MsgKind, PartyDriver};
use crate::types::{copy_signature, signature_view, MpcMessage, MpcRecipient, SignatureResult};

verus! {

/// A protocol message on the signing wire. `sender` and `recipient` are
/// keygen indices; `payload` is base64 of the serialized protocol message.
#[derive(Clone, Debug)]
pub struct WasmSignMessage {
    pub sender: u16,
    pub is_broadcast: bool,
    pub recipient: Option<u16>,
    pub payload: String,
}

/// A wire message with its payload as text.
pub struct WireView {
    pub sender: u16,
    pub is_broadcast: bool,
    pub recipient: Option<u16>,
    pub payload: Seq<char>,
}

impl View for WasmSignMessage {
    type V = WireView;

    open spec fn view(&self) -> WireView {
        WireView {
            sender: self.sender,
            is_broadcast: self.is_broadcast,
            recipient: self.recipient,
            payload: self.payload@,
        }
    }
}

/// What creating a session returns: its id and its first messages.
pub struct CreateSessionResult {
    pub session_id: String,
    pub messages: Vec<WasmSignMessage>,
}

/// What one round returns: the messages to send, and the signature once the
/// protocol has finished.
pub struct ProcessRoundResult {
    pub messages: Vec<WasmSignMessage>,
    pub complete: bool,
    pub signature: Option<SignatureResult>,
}

/// A field of the record that starts a signing session.
#[derive(Clone, Copy, Debug, PartialEq, Eq, Structural)]
pub enum InitField {
    CoreShare,
    AuxInfo,
    MessageHash,
    Eid,
}

/// Why a signing session could not start or go on.
#[derive(Debug)]
pub enum SignError {
    /// A field of the init record is not valid base64 or hex.
    BadEncoding { field: InitField },
    /// The message hash is not 32 bytes long.
    HashLength { len: usize },
    /// The party's keygen index is not among the signing parties.
    UnknownParty { party_index: u16 },
    /// An incoming message names a sender outside the signing parties.
    UnknownSender { sender: u16 },
    /// No session has this id.
    NoSession,
    /// An incoming payload is not valid base64.
    BadPayload,
    /// The state machine rejected an incoming message.
    Rejected { reason: String },
    /// The state machine reported an irrecoverable error.
    Protocol { reason: String },
    /// The state machine kept going without ever blocking or finishing.
    Stalled,
    /// The finished signature does not have the length of `r` and `s`.
    BadSignature { len: usize },
    /// The system's random source failed.
    NoRandomness,
    /// The state machine addressed a direct message to a position outside
    /// the signing group.
    UnknownRecipient { position: u16 },
    /// A fresh session id is already in use.
    DuplicateId,
}

/// Length of a message hash and of each signature scalar, in bytes.
pub const SCALAR_LEN: usize = 32;

/// Length of a serialized signature: `r` then `s`.
pub const SIGNATURE_LEN: usize = 64;

/// The most steps that driving a state machine until it blocks may take.
pub const MAX_DRIVE_STEPS: u64 = 100_000;

/// The keygen index that the wire uses for position `p` of the signing group.
pub open spec fn keygen_index(parties: Seq<u16>, p: u16) -> u16 {
    parties[p as int]
}

/// The first position of keygen index `k` among the signing parties.
pub fn position_of(parties: &[u16], k: u16) -> (r: Option<usize>)
    ensures
        r matches Some(i) ==> i < parties@.len() && parties@[i as int] == k
            && forall|j: int| 0 <= j < i ==> parties@[j] != k,
        r is None <==> !parties@.contains(k),
{
    let mut i: usize = 0;
    while i < parties.len()
        invariant
            i <= parties@.len(),
            forall|j: int| 0 <= j < i ==> parties@[j] != k,
        decreases parties@.len() - i,
    {
        if parties[i] == k {
            return Some(i);
        }
        i += 1;
    }
    None
}

/// Puts a driver's message on the wire: a direct message's recipient goes
/// from its position in the signing group to its keygen index.
pub fn mpc_msg_to_wasm(msg: MpcMessage, parties: &[u16]) -> (w: WasmSignMessage)
    requires
        msg.recipient matches MpcRecipient::Party(p) ==> p < parties@.len(),
    ensures
        w.sender == msg.sender,
        w.payload == msg.payload,
        msg.recipient is Broadcast ==> w.is_broadcast && w.recipient is None,
        msg.recipient matches MpcRecipient::Party(p) ==> !w.is_broadcast
            && w.recipient == Some(keygen_index(parties@, p)),
{
    let (is_broadcast, recipient) = match &msg.recipient {
        MpcRecipient::Broadcast(_) => (true, None),
        MpcRecipient::Party(p) => {
            (false, Some(parties[*p as usize]))
        },
    };
    WasmSignMessage { sender: msg.sender, is_broadcast, recipient, payload: msg.payload }
}

/// Splits a serialized signature into `r` and `s`.
pub fn signature_from_bytes(sig: &[u8]) -> (r: Option<SignatureResult>)
    ensures
        r is Some <==> sig@.len() == SIGNATURE_LEN,
        r matches Some(s) ==> s.r@ == sig@.subrange(0, 32) && s.s@ == sig@.subrange(32, 64),
{
    if sig.len() != SIGNATURE_LEN {
        return None;
    }
    let mut r: Vec<u8> = Vec::new();
    let mut s: Vec<u8> = Vec::new();
    let mut i: usize = 0;
    while i < SCALAR_LEN
        invariant
            sig@.len() == 64,
            i <= 32,
            r@ == sig@.subrange(0, i as int),
            s@ == sig@.subrange(32, 32 + i),
        decreases 32 - i,
    {
        r.push(sig[i]);
        s.push(sig[SCALAR_LEN + i]);
        i += 1;
        assert(r@ =~= sig@.subrange(0, i as int));
        assert(s@ =~= sig@.subrange(32, 32 + i));
    }
    Some(SignatureResult { r, s })
}

/// The hex text of `r` and of `s`, as the signing output carries them.
pub fn signature_hex(sig: &SignatureResult) -> (r: (String, String))
    ensures
        r.0@ == hex_text(sig.r@),
        r.1@ == hex_text(sig.s@),
{
    (hex_encode(sig.r.as_slice()), hex_encode(sig.s.as_slice()))
}

/// The sixteen random bytes of an id with the version nibble set to 4 and
/// the variant bits to `10`.
pub open spec fn uuid_bytes(raw: Seq<u8>) -> Seq<u8> {
    raw.update(6, (raw[6] & 0x0f) | 0x40).update(8, (raw[8] & 0x3f) | 0x80)
}

/// The id's text: groups of 4, 2, 2, 2 and 6 bytes in hex, joined by dashes.
pub open spec fn uuid_text(raw: Seq<u8>) -> Seq<char> {
    let b = uuid_bytes(raw);
    hex_text(b.subrange(0, 4)) + seq!['-'] + hex_text(b.subrange(4, 6)) + seq!['-'] + hex_text(
        b.subrange(6, 8),
    ) + seq!['-'] + hex_text(b.subrange(8, 10)) + seq!['-'] + hex_text(b.subrange(10, 16))
}

fn hex_group(b: &Vec<u8>, start: usize, end: usize) -> (r: String)
    requires
        start <= end <= b@.len(),
    ensures
        r@ == hex_text(b@.subrange(start as int, end as int)),
{
    let mut g: Vec<u8> = Vec::new();
    let mut i: usize = start;
    while i < end
        invariant
            start <= i <= end <= b@.len(),
            g@ == b@.subrange(start as int, i as int),
        decreases end - i,
    {
        g.push(b[i]);
        i += 1;
        assert(g@ =~= b@.subrange(start as int, i as int));
    }
    hex_encode(g.as_slice())
}

/// Formats sixteen random bytes as a version-4 UUID.
pub fn format_uuid(raw: [u8; 16]) -> (r: String)
    ensures
        r@ == uuid_text(raw@),
{
    let mut b: Vec<u8> = Vec::new();
    let mut i: usize = 0;
    while i < 16
        invariant
            i <= 16,
            b@ == raw@.subrange(0, i as int),
        decreases 16 - i,
    {
        b.push(raw[i]);
        i += 1;
        assert(b@ =~= raw@.subrange(0, i as int));
    }
    assert(b@ =~= raw@);
    let v6 = (b[6] & 0x0f) | 0x40;
    b[6] = v6;
    let v8 = (b[8] & 0x3f) | 0x80;
    b[8] = v8;
    assert(b@ =~= uuid_bytes(raw@));
    let id = hex_group(&b, 0, 4).concat("-");
    let id = id.concat(hex_group(&b, 4, 6).as_str()).concat("-");
    let id = id.concat(hex_group(&b, 6, 8).as_str()).concat("-");
    let id = id.concat(hex_group(&b, 8, 10).as_str()).concat("-");
    let id = id.concat(hex_group(&b, 10, 16).as_str());
    proof {
        reveal_strlit("-");
    }
    id
}

/// Relies on `getrandom::getrandom`: fills the buffer from the system's
/// random source, or fails.
#[verifier::external_body]
fn random_16() -> (r: Option<[u8; 16]>) {
    let mut bytes = [0u8; 16];
    getrandom::getrandom(&mut bytes).ok().map(|_| bytes)
}

/// A fresh random version-4 UUID, or `None` when no randomness is to be had.
pub fn uuid_v4() -> (r: Option<String>)
    ensures
        r matches Some(id) ==> exists|raw: Seq<u8>| raw.len() == 16 && id@ == uuid_text(raw),
{
    match random_16() {
        Some(raw) => {
            let id = format_uuid(raw);
            Some(id)
        },
        None => None,
    }
}

/// One call that a session made on its driver, with what came back.
pub enum Call {
    /// A message was delivered from the party at position `sender`.
    Deliver { sender: u16, kind: MsgKind, msg: Seq<u8> },
    /// A step produced a message to send.
    Sent { dest: Destination, msg: Seq<u8> },
    /// A step found the machine waiting for a message.
    Waiting,
    /// A step made internal progress.
    Yielded,
    /// A step finished the protocol with this serialized signature.
    Finished { sig: Seq<u8> },
    /// A step failed with this reason.
    Failed { reason: String },
    /// A step produced a direct message to a position outside the group.
    Misaddressed { position: u16 },
    /// A step finished with output that is not a serialized signature.
    Malformed { sig: Seq<u8> },
    /// A delivery was rejected with this reason.
    Refused { reason: String },
}

/// A call that hands the driver a message, whether it takes it or not.
pub open spec fn is_receive(c: Call) -> bool {
    c is Deliver || c is Refused
}

/// The deliveries among a run of calls, in order.
pub open spec fn receipts(calls: Seq<Call>) -> Seq<Call>
    decreases calls.len(),
{
    if calls.len() == 0 {
        seq![]
    } else if calls.last() is Deliver {
        receipts(calls.drop_last()).push(calls.last())
    } else {
        receipts(calls.drop_last())
    }
}

proof fn lemma_receipts_no_delivery(a: Seq<Call>, b: Seq<Call>)
    requires
        forall|i: int| 0 <= i < b.len() ==> !(#[trigger] b[i] is Deliver),
    ensures
        receipts(a + b) == receipts(a),
    decreases b.len(),
{
    if b.len() == 0 {
        assert(a + b =~= a);
    } else {
        assert((a + b).drop_last() =~= a + b.drop_last());
        assert(b.last() == b[b.len() - 1]);
        lemma_receipts_no_delivery(a, b.drop_last());
    }
}

/// The calls so far leave the driver blocked, or none were made.
pub open spec fn settled(seg: Seq<Call>) -> bool {
    seg.len() == 0 || is_blocking(seg.last())
}

/// A wire message names signing parties as its sender and, if it is direct,
/// as its recipient.
pub open spec fn in_group(m: WireView, parties: Seq<u16>) -> bool {
    &&& parties.contains(m.sender)
    &&& m.is_broadcast <==> m.recipient is None
    &&& m.recipient matches Some(r) ==> parties.contains(r)
}

/// After this call the driver is not stepped again until a delivery.
pub open spec fn is_blocking(c: Call) -> bool {
    c is Waiting || c is Finished
}

/// Steps that stop at the first one that blocks.
pub open spec fn is_drain(d: Seq<Call>) -> bool {
    &&& d.len() > 0
    &&& is_blocking(d.last())
    &&& forall|i: int| 0 <= i < d.len() - 1 ==> !is_blocking(#[trigger] d[i]) && !(d[i] is Deliver)
}

/// Every delivery is followed by steps up to the first that blocks, and only
/// a blocking step is followed by a delivery.
pub open spec fn well_driven(seg: Seq<Call>) -> bool {
    &&& seg.len() > 0 ==> is_blocking(seg.last())
    &&& forall|i: int, j: int|
        #![trigger seg[i], seg[j]]
        0 <= i && j == i + 1 && j < seg.len() ==> (is_blocking(seg[i]) <==> seg[j] is Deliver)
}

/// What was appended to `old` to give `new`.
pub open spec fn added<A>(old: Seq<A>, new: Seq<A>) -> Seq<A> {
    new.subrange(old.len() as int, new.len() as int)
}

/// The wire form of a message that the party at keygen index `me` sends to
/// `dest` with payload `msg`.
pub open spec fn wire_message(me: u16, parties: Seq<u16>, dest: Destination, msg: Seq<u8>) -> WireView {
    WireView {
        sender: me,
        is_broadcast: dest is AllParties,
        recipient: match dest {
            Destination::AllParties => None,
            Destination::OneParty(p) => Some(keygen_index(parties, p)),
        },
        payload: base64_text(msg),
    }
}

/// The wire messages that a run of calls sent, in order.
pub open spec fn emitted(calls: Seq<Call>, me: u16, parties: Seq<u16>) -> Seq<WireView>
    decreases calls.len(),
{
    if calls.len() == 0 {
        seq![]
    } else {
        let prev = emitted(calls.drop_last(), me, parties);
        match calls.last() {
            Call::Sent { dest, msg } => prev.push(wire_message(me, parties, dest, msg)),
            _ => prev,
        }
    }
}

proof fn lemma_emitted_concat(a: Seq<Call>, b: Seq<Call>, me: u16, parties: Seq<u16>)
    ensures
        emitted(a + b, me, parties) == emitted(a, me, parties) + emitted(b, me, parties),
    decreases b.len(),
{
    if b.len() == 0 {
        assert(a + b =~= a);
        assert(emitted(b, me, parties) =~= seq![]);
        assert(emitted(a, me, parties) + emitted(b, me, parties) =~= emitted(a, me, parties));
    } else {
        assert((a + b).drop_last() =~= a + b.drop_last());
        lemma_emitted_concat(a, b.drop_last(), me, parties);
        let l = emitted(a, me, parties);
        let r = emitted(b.drop_last(), me, parties);
        match b.last() {
            Call::Sent { dest, msg } => {
                assert(l + r.push(wire_message(me, parties, dest, msg)) =~= (l + r).push(
                    wire_message(me, parties, dest, msg),
                ));
            },
            _ => {},
        }
    }
}

proof fn lemma_extend_round(a: Seq<Call>, c: Call, d: Seq<Call>)
    requires
        well_driven(a),
        a.len() > 0 ==> a[0] is Deliver,
        c is Deliver,
        is_drain(d),
    ensures
        well_driven(a.push(c) + d),
        (a.push(c) + d)[0] is Deliver,
{
    let seg = a.push(c) + d;
    let n = a.len() as int;
    assert(seg.len() == n + 1 + d.len());
    assert(forall|i: int| 0 <= i < n ==> seg[i] == a[i]);
    assert(seg[n] == c);
    assert(forall|j: int| 0 <= j < d.len() ==> seg[n + 1 + j] == d[j]);
    assert forall|i: int, j: int| 0 <= i && j == i + 1 && j < seg.len() implies (is_blocking(
        #[trigger] seg[i],
    ) <==> #[trigger] seg[j] is Deliver) by {
        if i < n - 1 {
            assert(seg[i] == a[i]);
            assert(seg[j] == a[j]);
        } else if i == n - 1 {
            assert(seg[i] == a.last());
        } else if i == n {
            assert(seg[j] == d[0]);
        } else {
            let k = i - n - 1;
            assert(seg[i] == d[k]);
            assert(seg[j] == d[k + 1]);
        }
    }
    assert(seg.last() == d.last());
}

proof fn lemma_addressed_take(s: Seq<WasmSignMessage>, j: int, me: u16)
    requires
        0 <= j <= s.len(),
    ensures
        addressed(s.take(j), me) == addressed(s, me).take(addressed(s.take(j), me).len() as int),
        addressed(s.take(j), me).len() <= addressed(s, me).len(),
{
    lemma_addressed_prefix(s, j, me);
    assert(addressed(s.take(j), me) =~= addressed(s, me).take(addressed(s.take(j), me).len() as int));
}

proof fn lemma_addressed_prefix(s: Seq<WasmSignMessage>, j: int, me: u16)
    requires
        0 <= j <= s.len(),
    ensures
        addressed(s.take(j), me).is_prefix_of(addressed(s, me)),
    decreases s.len(),
{
    if j == s.len() {
        assert(s.take(j) =~= s);
    } else {
        assert(s.drop_last().take(j) =~= s.take(j));
        lemma_addressed_prefix(s.drop_last(), j, me);
    }
}

/// Whether a wire message is for the party at keygen index `me`: a direct
/// message naming another party is not.
pub open spec fn is_addressed_to(m: WasmSignMessage, me: u16) -> bool {
    m.is_broadcast || m.recipient is None || m.recipient == Some(me)
}

/// The incoming messages that are for `me`, in order.
pub open spec fn addressed(incoming: Seq<WasmSignMessage>, me: u16) -> Seq<WasmSignMessage>
    decreases incoming.len(),
{
    if incoming.len() == 0 {
        seq![]
    } else {
        let prev = addressed(incoming.drop_last(), me);
        if is_addressed_to(incoming.last(), me) {
            prev.push(incoming.last())
        } else {
            prev
        }
    }
}

/// `pos` is the first position of keygen index `k` among the parties.
pub open spec fn is_first_position(parties: Seq<u16>, k: u16, pos: int) -> bool {
    &&& 0 <= pos < parties.len()
    &&& parties[pos] == k
    &&& forall|j: int| 0 <= j < pos ==> parties[j] != k
}

/// The kind of a wire message.
pub open spec fn kind_of(is_broadcast: bool) -> MsgKind {
    if is_broadcast {
        MsgKind::Broadcast
    } else {
        MsgKind::P2P
    }
}

/// `c` is the delivery of wire message `m`: its sender translated to a
/// position, its payload decoded.
pub open spec fn delivers(c: Call, m: WasmSignMessage, parties: Seq<u16>) -> bool {
    c matches Call::Deliver { sender, kind, msg } && is_first_position(parties, m.sender, sender as int)
        && kind == kind_of(m.is_broadcast) && base64_text(msg) == m.payload@ && forall|b: Seq<u8>|
        #[trigger] base64_text(b) == m.payload@ ==> b == msg
}

/// `d` delivers exactly the messages `wanted`, in order.
pub open spec fn delivers_all(d: Seq<Call>, wanted: Seq<WasmSignMessage>, parties: Seq<u16>) -> bool {
    &&& d.len() == wanted.len()
    &&& forall|i: int| 0 <= i < d.len() ==> delivers(#[trigger] d[i], wanted[i], parties)
}

/// Whether a wire message is to be delivered to the party at keygen index `me`.
fn is_for(m: &WasmSignMessage, me: u16) -> (r: bool)
    ensures
        r == is_addressed_to(*m, me),
{
    match m.recipient {
        Some(recipient) => m.is_broadcast || recipient == me,
        None => true,
    }
}

/// One party's signing session: its driver, its keygen index, the keygen
/// indices of the signing group, and the signature once there is one.
pub struct SignSession<P> {
    driver: P,
    party_index: u16,
    parties_at_keygen: Vec<u16>,
    signature: Option<SignatureResult>,
    calls: Ghost<Seq<Call>>,
    deliveries: Ghost<Seq<Call>>,
}

impl<P> SignSession<P> {
    pub closed spec fn wf(&self) -> bool {
        &&& self.parties_at_keygen@.contains(self.party_index)
        &&& self.parties_at_keygen@.len() <= u16::MAX
    }

    /// The signature, once the protocol has finished.
    pub closed spec fn sig(&self) -> Option<SignatureResult> {
        self.signature
    }

    /// This party's keygen index.
    pub closed spec fn me(&self) -> u16 {
        self.party_index
    }

    /// The keygen indices of the signing group; a party's position is its
    /// offset here.
    pub closed spec fn parties(&self) -> Seq<u16> {
        self.parties_at_keygen@
    }

    /// Every call made on the driver so far.
    pub closed spec fn calls(&self) -> Seq<Call> {
        self.calls@
    }

    /// Every delivery made to the driver so far.
    pub closed spec fn deliveries(&self) -> Seq<Call> {
        self.deliveries@
    }

    /// Drives the machine until it waits for a message or finishes, and puts
    /// what it sent on the wire. A direct message to a position outside the
    /// signing group is refused; a signature, once set, is kept.
    fn drive_batch(&mut self) -> (r: Result<Vec<WasmSignMessage>, SignError>) where P: PartyDriver<Vec<u8>, Vec<u8>>
        requires
            old(self).wf(),
        ensures
            final(self).wf(),
            final(self).me() == old(self).me(),
            final(self).parties() == old(self).parties(),
            final(self).deliveries() == old(self).deliveries(),
            old(self).calls().is_prefix_of(final(self).calls()),
            old(self).sig() is Some ==> final(self).sig() == old(self).sig(),
            forall|i: int|
                0 <= i < added(old(self).calls(), final(self).calls()).len() ==> !(#[trigger] added(
                    old(self).calls(),
                    final(self).calls(),
                )[i] is Deliver),
            r is Err ==> {
                let d = added(old(self).calls(), final(self).calls());
                &&& d.len() > 0
                &&& !is_blocking(d.last())
                &&& r->Err_0 is Protocol || r->Err_0 is Stalled || r->Err_0 is BadSignature
                    || r->Err_0 is UnknownRecipient
            },
            r matches Err(SignError::Protocol { reason }) ==> added(old(self).calls(), final(self).calls()).last()
                == (Call::Failed { reason }),
            r matches Err(SignError::UnknownRecipient { position }) ==> position >= old(self).parties().len(),
            r matches Ok(msgs) ==> {
                let d = added(old(self).calls(), final(self).calls());
                &&& is_drain(d)
                &&& msgs@.map_values(|m: WasmSignMessage| m@) == emitted(d, old(self).me(), old(self).parties())
                &&& forall|i: int| 0 <= i < msgs@.len() ==> in_group(#[trigger] msgs@[i]@, old(self).parties())
                &&& d.last() is Waiting ==> final(self).sig() == old(self).sig()
                &&& d.last() matches Call::Finished { sig } ==> (old(self).sig() is None ==> (final(self).sig() matches Some(
                    s,
                ) && s.r@ == sig.subrange(0, 32) && s.s@ == sig.subrange(32, 64)))
            },
    {
        let ghost start = self.calls@;
        let mut messages: Vec<WasmSignMessage> = Vec::new();
        let mut steps: u64 = 0;
        while steps < MAX_DRIVE_STEPS
            invariant
                self.wf(),
                self.me() == old(self).me(),
                self.parties() == old(self).parties(),
                self.deliveries() == old(self).deliveries(),
                self.sig() == old(self).sig(),
                start == old(self).calls(),
                start.is_prefix_of(self.calls()),
                added(start, self.calls()).len() == steps,
                forall|i: int| 0 <= i < added(start, self.calls()).len() ==> !is_blocking(
                    #[trigger] added(start, self.calls())[i],
                ) && !(added(start, self.calls())[i] is Deliver),
                messages@.map_values(|m: WasmSignMessage| m@) == emitted(
                    added(start, self.calls()),
                    self.me(),
                    self.parties(),
                ),
                forall|i: int| 0 <= i < messages@.len() ==> in_group(#[trigger] messages@[i]@, self.parties()),
            decreases MAX_DRIVE_STEPS - steps,
        {
            steps += 1;
            let ghost before = self.calls@;
            let ghost call;
            match self.driver.drive_one() {
                Err(reason) => {
                    proof {
                        call = Call::Failed { reason };
                    }
                    self.calls = Ghost(self.calls@.push(call));
                    proof {
                        assert(added(start, self.calls@) =~= added(start, before).push(call));
                    }
                    return Err(SignError::Protocol { reason });
                },
                Ok(DriveOutcome::SendMsg(out)) => {
                    if let Destination::OneParty(p) = out.dest {
                        if p as usize >= self.parties_at_keygen.len() {
                            proof {
                                call = Call::Misaddressed { position: p };
                            }
                            self.calls = Ghost(self.calls@.push(call));
                            proof {
                                assert(added(start, self.calls@) =~= added(start, before).push(call));
                            }
                            return Err(SignError::UnknownRecipient { position: p });
                        }
                    }
                    let payload = base64_encode(out.msg.as_slice());
                    let recipient = match out.dest {
                        Destination::AllParties => MpcRecipient::Broadcast("all".to_owned()),
                        Destination::OneParty(p) => MpcRecipient::Party(p),
                    };
                    let mpc = MpcMessage { sender: self.party_index, recipient, payload };
                    let wire = mpc_msg_to_wasm(mpc, self.parties_at_keygen.as_slice());
                    proof {
                        call = Call::Sent { dest: out.dest, msg: out.msg@ };
                    }
                    self.calls = Ghost(self.calls@.push(call));
                    let ghost prev_msgs = messages@;
                    messages.push(wire);
                    proof {
                        assert(added(start, self.calls@) =~= added(start, before).push(call));
                        assert(added(start, self.calls@).drop_last() =~= added(start, before));
                        assert(messages@.map_values(|m: WasmSignMessage| m@) =~= prev_msgs.map_values(
                            |m: WasmSignMessage| m@,
                        ).push(wire@));
                        if let Destination::OneParty(p) = out.dest {
                            assert(self.parties().contains(self.parties()[p as int]));
                        }
                        assert(in_group(wire@, self.parties()));
                        assert(messages@[messages@.len() - 1] == wire);
                    }
                },
                Ok(DriveOutcome::NeedsInput) => {
                    self.calls = Ghost(self.calls@.push(Call::Waiting));
                    proof {
                        assert(added(start, self.calls@) =~= added(start, before).push(Call::Waiting));
                        assert(added(start, self.calls@).drop_last() =~= added(start, before));
                    }
                    return Ok(messages);
                },
                Ok(DriveOutcome::Finished(sig)) => {
                    match signature_from_bytes(sig.as_slice()) {
                        None => {
                            proof {
                                call = Call::Malformed { sig: sig@ };
                            }
                            self.calls = Ghost(self.calls@.push(call));
                            proof {
                                assert(added(start, self.calls@) =~= added(start, before).push(call));
                            }
                            return Err(SignError::BadSignature { len: sig.len() });
                        },
                        Some(s) => {
                            if self.signature.is_none() {
                                self.signature = Some(s);
                            }
                        },
                    }
                    proof {
                        call = Call::Finished { sig: sig@ };
                    }
                    self.calls = Ghost(self.calls@.push(call));
                    proof {
                        assert(added(start, self.calls@) =~= added(start, before).push(call));
                        assert(added(start, self.calls@).drop_last() =~= added(start, before));
                    }
                    return Ok(messages);
                },
                Ok(DriveOutcome::Yielded) => {
                    self.calls = Ghost(self.calls@.push(Call::Yielded));
                    proof {
                        assert(added(start, self.calls@) =~= added(start, before).push(Call::Yielded));
                        assert(added(start, self.calls@).drop_last() =~= added(start, before));
                    }
                },
            }
        }
        Err(SignError::Stalled)
    }

    /// What one round guarantees, from the session before to the session
    /// after, for the incoming batch `incoming` and the result `r`. `k`
    /// messages for this party were delivered; a round that stops with the
    /// machine blocked stops at the first message it cannot deliver.
    pub open spec fn round_post(
        old: &Self,
        new: &Self,
        incoming: Seq<WasmSignMessage>,
        r: Result<ProcessRoundResult, SignError>,
    ) -> bool {
        let wanted = addressed(incoming, old.me());
        let seg = added(old.calls(), new.calls());
        let d = added(old.deliveries(), new.deliveries());
        let k = d.len() as int;
        let parties = old.parties();
        &&& new.wf()
        &&& new.me() == old.me()
        &&& new.parties() == parties
        &&& parties.contains(old.me())
        &&& old.calls().is_prefix_of(new.calls())
        &&& old.deliveries().is_prefix_of(new.deliveries())
        &&& k <= wanted.len()
        &&& delivers_all(d, wanted.take(k), parties)
        &&& receipts(seg) == d
        &&& seg.len() > 0 && wanted.len() > 0 ==> is_receive(seg[0])
        &&& old.sig() is Some ==> new.sig() == old.sig()
        &&& (r is Err && r->Err_0 is UnknownSender) <==> (settled(seg) && k < wanted.len() && !parties.contains(
            wanted[k].sender,
        ))
        &&& r matches Err(SignError::UnknownSender { sender }) ==> sender == wanted[k].sender
        &&& (r is Err && r->Err_0 is BadPayload) <==> (settled(seg) && k < wanted.len() && parties.contains(
            wanted[k].sender,
        ) && !is_base64(wanted[k].payload@))
        &&& r is Err ==> r->Err_0 is UnknownSender || r->Err_0 is BadPayload || r->Err_0 is Rejected
            || r->Err_0 is Protocol || r->Err_0 is Stalled || r->Err_0 is BadSignature || r->Err_0 is UnknownRecipient
        &&& r matches Err(SignError::Rejected { reason }) ==> seg.last() == (Call::Refused { reason })
        &&& r matches Err(SignError::Protocol { reason }) ==> seg.last() == (Call::Failed { reason })
        &&& r matches Ok(res) ==> {
            &&& k == wanted.len()
            &&& seg.len() > 0
            &&& well_driven(seg)
            &&& (seg[0] is Deliver <==> wanted.len() > 0)
            &&& res.messages@.map_values(|m: WasmSignMessage| m@) == emitted(seg, old.me(), parties)
            &&& forall|i: int| 0 <= i < res.messages@.len() ==> in_group(#[trigger] res.messages@[i]@, parties)
            &&& res.complete == new.sig() is Some
            &&& signature_view(res.signature) == signature_view(new.sig())
        }
    }

    /// Delivers the incoming batch one message at a time, driving the machine
    /// until it blocks after each delivery; direct messages for other parties
    /// are skipped. With nothing delivered, the machine is driven once.
    #[verifier::rlimit(60)]
    pub fn process(&mut self, incoming: &[WasmSignMessage]) -> (r: Result<ProcessRoundResult, SignError>)
        where P: PartyDriver<Vec<u8>, Vec<u8>>
        requires
            old(self).wf(),
        ensures
            Self::round_post(old(self), final(self), incoming@, r),
    {
        let ghost calls0 = self.calls@;
        let ghost deliv0 = self.deliveries@;
        let ghost me = self.party_index;
        let ghost parties = self.parties_at_keygen@;
        let ghost wanted = addressed(incoming@, me);
        let mut all: Vec<WasmSignMessage> = Vec::new();
        let mut count: usize = 0;
        let mut k: usize = 0;
        while k < incoming.len()
            invariant
                self.wf(),
                self.me() == me == old(self).me(),
                self.parties() == parties,
                parties == old(self).parties(),
                wanted == addressed(incoming@, me),
                old(self).sig() is Some ==> self.sig() == old(self).sig(),
                calls0 == old(self).calls(),
                deliv0 == old(self).deliveries(),
                calls0.is_prefix_of(self.calls()),
                deliv0.is_prefix_of(self.deliveries()),
                k <= incoming@.len(),
                count <= k,
                count == addressed(incoming@.take(k as int), me).len(),
                addressed(incoming@.take(k as int), me) == wanted.take(count as int),
                count <= wanted.len(),
                added(deliv0, self.deliveries()).len() == count,
                delivers_all(added(deliv0, self.deliveries()), wanted.take(count as int), parties),
                well_driven(added(calls0, self.calls())),
                added(calls0, self.calls()).len() == 0 <==> count == 0,
                receipts(added(calls0, self.calls())) == added(deliv0, self.deliveries()),
                count > 0 ==> added(calls0, self.calls())[0] is Deliver,
                all@.map_values(|m: WasmSignMessage| m@) == emitted(added(calls0, self.calls()), me, parties),
                forall|i: int| 0 <= i < all@.len() ==> in_group(#[trigger] all@[i]@, parties),
            decreases incoming@.len() - k,
        {
            let msg = &incoming[k];
            proof {
                assert(incoming@.take(k + 1).drop_last() =~= incoming@.take(k as int));
                assert(incoming@.take(k + 1).last() == incoming@[k as int]);
                lemma_addressed_take(incoming@, k + 1, me);
            }
            if !is_for(msg, self.party_index) {
                k += 1;
                continue;
            }
            proof {
                assert(addressed(incoming@.take(k + 1), me)[count as int] == *msg);
                assert(wanted[count as int] == *msg);
            }
            let pos = match position_of(self.parties_at_keygen.as_slice(), msg.sender) {
                Some(p) => p,
                None => {
                    return Err(SignError::UnknownSender { sender: msg.sender });
                },
            };
            let bytes = match base64_decode(msg.payload.as_str()) {
                Some(b) => b,
                None => {
                    return Err(SignError::BadPayload);
                },
            };
            let kind = if msg.is_broadcast {
                MsgKind::Broadcast
            } else {
                MsgKind::P2P
            };
            let ghost seg_before = added(calls0, self.calls@);
            let ghost d_before = added(deliv0, self.deliveries@);
            match self.driver.receive(pos as u16, kind, &bytes) {
                Ok(()) => {},
                Err(reason) => {
                    let ghost refused = Call::Refused { reason };
                    self.calls = Ghost(self.calls@.push(refused));
                    proof {
                        assert(added(calls0, self.calls@) =~= seg_before.push(refused));
                        assert(seg_before.push(refused).drop_last() =~= seg_before);
                        if seg_before.len() == 0 {
                            assert(added(calls0, self.calls@)[0] == refused);
                        }
                    }
                    return Err(SignError::Rejected { reason });
                },
            }
            let ghost call = Call::Deliver { sender: pos as u16, kind, msg: bytes@ };
            self.calls = Ghost(self.calls@.push(call));
            self.deliveries = Ghost(self.deliveries@.push(call));
            proof {
                assert(added(calls0, self.calls@) =~= seg_before.push(call));
                assert(seg_before.push(call).drop_last() =~= seg_before);
                assert(added(deliv0, self.deliveries@) =~= d_before.push(call));
                assert(wanted.take(count + 1) =~= wanted.take(count as int).push(*msg));
                assert(delivers(call, *msg, parties));
                assert(addressed(incoming@.take(k + 1), me) =~= wanted.take(count + 1));
            }
            let ghost mid = self.calls@;
            let mut batch = match self.drive_batch() {
                Ok(b) => b,
                Err(e) => {
                    proof {
                        let drain = added(mid, self.calls@);
                        assert(added(calls0, self.calls@) =~= seg_before.push(call) + drain);
                        assert(added(calls0, self.calls@).last() == drain.last());
                        lemma_receipts_no_delivery(seg_before.push(call), drain);
                        assert(added(calls0, self.calls@)[0] == seg_before.push(call)[0]);
                        if seg_before.len() > 0 {
                            assert(seg_before[0] is Deliver);
                        }
                    }
                    return Err(e);
                },
            };
            proof {
                let drain = added(mid, self.calls@);
                assert(added(calls0, self.calls@) =~= seg_before.push(call) + drain);
                lemma_extend_round(seg_before, call, drain);
                lemma_receipts_no_delivery(seg_before.push(call), drain);
                lemma_emitted_concat(seg_before.push(call), drain, me, parties);
                assert(seg_before.push(call).drop_last() =~= seg_before);
            }
            let ghost all_before = all@;
            let ghost batch_view = batch@;
            all.append(&mut batch);
            proof {
                assert(all@.map_values(|m: WasmSignMessage| m@) =~= all_before.map_values(
                    |m: WasmSignMessage| m@,
                ) + batch_view.map_values(|m: WasmSignMessage| m@));
                assert forall|i: int| 0 <= i < all@.len() implies in_group(#[trigger] all@[i]@, parties) by {
                    if i >= all_before.len() {
                        assert(all@[i] == batch_view[i - all_before.len()]);
                    } else {
                        assert(all@[i] == all_before[i]);
                    }
                }
            }
            count += 1;
            k += 1;
        }
        proof {
            assert(incoming@.take(incoming@.len() as int) =~= incoming@);
            assert(wanted.take(count as int).len() == count);
            assert(wanted.take(wanted.len() as int) =~= wanted);
        }
        if count == 0 {
            let ghost mid = self.calls@;
            let batch = match self.drive_batch() {
                Ok(b) => b,
                Err(e) => {
                    proof {
                        assert(added(calls0, self.calls@) =~= added(mid, self.calls@));
                        lemma_receipts_no_delivery(seq![], added(mid, self.calls@));
                        assert(seq![] + added(mid, self.calls@) =~= added(mid, self.calls@));
                    }
                    return Err(e);
                },
            };
            proof {
                let seg = added(calls0, self.calls@);
                assert(seg =~= added(mid, self.calls@));
                lemma_receipts_no_delivery(seq![], seg);
                assert(seq![] + seg =~= seg);
                assert(all@.len() == 0);
                assert(!(seg[0] is Deliver)) by {
                    if seg.len() == 1 {
                        assert(seg[0] == seg.last());
                    }
                }
                assert(all@.map_values(|m: WasmSignMessage| m@) =~= seq![]);
                assert(emitted(seq![], me, parties) =~= seq![]);
            }
            all = batch;
        }
        let complete = self.signature.is_some();
        let signature = copy_signature(&self.signature);
        Ok(ProcessRoundResult { messages: all, complete, signature })
    }
}

/// The live signing sessions of this process, by id.
pub struct SessionStore<P> {
    ids: Vec<String>,
    sessions: Vec<SignSession<P>>,
}

impl<P> SessionStore<P> {
    pub closed spec fn wf(&self) -> bool {
        &&& self.ids@.len() == self.sessions@.len()
        &&& forall|i: int, j: int|
            0 <= i < self.ids@.len() && 0 <= j < self.ids@.len() && i != j ==> (#[trigger] self.ids@[i])@
                != (#[trigger] self.ids@[j])@
        &&& forall|i: int| 0 <= i < self.sessions@.len() ==> (#[trigger] self.sessions@[i]).wf()
    }

    /// Whether a session has this id.
    pub closed spec fn has(&self, id: Seq<char>) -> bool {
        exists|i: int| 0 <= i < self.ids@.len() && (#[trigger] self.ids@[i])@ == id
    }

    closed spec fn index(&self, id: Seq<char>) -> int {
        choose|i: int| 0 <= i < self.ids@.len() && (#[trigger] self.ids@[i])@ == id
    }

    /// The session with this id.
    pub closed spec fn session(&self, id: Seq<char>) -> SignSession<P> {
        self.sessions@[self.index(id)]
    }

    /// Every session but the one with id `id` is as it was.
    pub open spec fn same_except(old: &Self, new: &Self, id: Seq<char>) -> bool {
        forall|o: Seq<char>|
            o != id ==> (#[trigger] new.has(o) == old.has(o)) && (old.has(o) ==> new.session(o) == old.session(o))
    }

    /// What destroying the session with id `id` guarantees.
    pub open spec fn destroy_post(old: &Self, new: &Self, id: Seq<char>, r: bool) -> bool {
        &&& new.wf()
        &&& r == old.has(id)
        &&& !new.has(id)
        &&& Self::same_except(old, new, id)
    }

    proof fn lemma_index(&self, id: Seq<char>, i: int)
        requires
            self.wf(),
            0 <= i < self.ids@.len(),
            self.ids@[i]@ == id,
        ensures
            self.has(id),
            self.index(id) == i,
            self.session(id) == self.sessions@[i],
    {
        let k = self.index(id);
        assert(self.ids@[k]@ == id);
    }

    /// An empty store.
    pub fn new() -> (r: Self)
        ensures
            r.wf(),
            forall|id: Seq<char>| !(#[trigger] r.has(id)),
    {
        SessionStore { ids: Vec::new(), sessions: Vec::new() }
    }

    /// The signature of the session with this id, once its protocol has
    /// finished.
    pub fn signature(&self, id: &str) -> (r: Option<SignatureResult>)
        requires
            self.wf(),
        ensures
            self.has(id@) ==> signature_view(r) == signature_view(self.session(id@).sig()),
            !self.has(id@) ==> r is None,
    {
        match self.find(id) {
            Some(k) => {
                proof {
                    self.lemma_index(id@, k as int);
                }
                copy_signature(&self.sessions[k].signature)
            },
            None => None,
        }
    }

    fn find(&self, id: &str) -> (r: Option<usize>)
        requires
            self.wf(),
        ensures
            r matches Some(k) ==> k < self.ids@.len() && self.ids@[k as int]@ == id@,
            r is None <==> !self.has(id@),
    {
        let key = id.to_owned();
        let mut k: usize = 0;
        while k < self.ids.len()
            invariant
                key@ == id@,
                k <= self.ids@.len(),
                forall|j: int| 0 <= j < k ==> (#[trigger] self.ids@[j])@ != id@,
            decreases self.ids@.len() - k,
        {
            if self.ids[k] == key {
                return Some(k);
            }
            k += 1;
        }
        None
    }

    /// Stores a session under `id`, in place of any session that had it.
    fn insert(&mut self, id: String, s: SignSession<P>)
        requires
            old(self).wf(),
            s.wf(),
        ensures
            final(self).wf(),
            final(self).has(id@),
            final(self).session(id@) == s,
            Self::same_except(old(self), final(self), id@),
    {
        match self.find(id.as_str()) {
            Some(k) => {
                self.sessions[k] = s;
                proof {
                    self.lemma_index(id@, k as int);
                    assert forall|o: Seq<char>| o != id@ implies (#[trigger] self.has(o) == old(self).has(o)) && (
                    old(self).has(o) ==> self.session(o) == old(self).session(o)) by {
                        if old(self).has(o) {
                            let i = old(self).index(o);
                            old(self).lemma_index(o, i);
                            self.lemma_index(o, i);
                        }
                        if self.has(o) {
                            let i = self.index(o);
                            self.lemma_index(o, i);
                            old(self).lemma_index(o, i);
                        }
                    }
                }
            },
            None => {
                let ghost n = self.ids@.len() as int;
                self.ids.push(id);
                self.sessions.push(s);
                proof {
                    self.lemma_index(self.ids@[n]@, n);
                    assert forall|o: Seq<char>| o != self.ids@[n]@ implies (#[trigger] self.has(o) == old(self).has(o)) && (
                    old(self).has(o) ==> self.session(o) == old(self).session(o)) by {
                        if old(self).has(o) {
                            let i = old(self).index(o);
                            old(self).lemma_index(o, i);
                            assert(self.ids@[i] == old(self).ids@[i]);
                            self.lemma_index(o, i);
                        }
                        if self.has(o) {
                            let i = self.index(o);
                            self.lemma_index(o, i);
                            if i < n {
                                old(self).lemma_index(o, i);
                            }
                        }
                    }
                }
            },
        }
    }
}

/// Destroys the session with this id; says whether there was one.
#[verifier::spinoff_prover]
pub fn destroy_session<P>(store: &mut SessionStore<P>, session_id: &str) -> (r: bool)
    requires
        old(store).wf(),
    ensures
        SessionStore::destroy_post(old(store), final(store), session_id@, r),
{
    match store.find(session_id) {
        Some(k) => {
            let ghost before = *store;
            store.ids.remove(k);
            store.sessions.remove(k);
            proof {
                let id = session_id@;
                before.lemma_index(id, k as int);
                assert(store.wf()) by {
                    assert forall|i: int, j: int|
                        0 <= i < store.ids@.len() && 0 <= j < store.ids@.len() && i != j implies (
                    #[trigger] store.ids@[i])@ != (#[trigger] store.ids@[j])@ by {
                        let oi = if i < k { i } else { i + 1 };
                        let oj = if j < k { j } else { j + 1 };
                        assert(store.ids@[i] == before.ids@[oi]);
                        assert(store.ids@[j] == before.ids@[oj]);
                    }
                    assert forall|i: int| 0 <= i < store.sessions@.len() implies (#[trigger] store.sessions@[i]).wf() by {
                        let oi = if i < k { i } else { i + 1 };
                        assert(store.sessions@[i] == before.sessions@[oi]);
                    }
                }
                assert(!store.has(id)) by {
                    if store.has(id) {
                        let i = store.index(id);
                        let oi = if i < k { i } else { i + 1 };
                        assert(store.ids@[i] == before.ids@[oi]);
                    }
                }
                assert forall|o: Seq<char>| o != id implies (#[trigger] store.has(o) == before.has(o)) && (
                before.has(o) ==> store.session(o) == before.session(o)) by {
                    if before.has(o) {
                        let oi = before.index(o);
                        before.lemma_index(o, oi);
                        assert(oi != k);
                        let i = if oi < k { oi } else { oi - 1 };
                        assert(store.ids@[i] == before.ids@[oi]);
                        store.lemma_index(o, i);
                    }
                    if store.has(o) {
                        let i = store.index(o);
                        let oi = if i < k { i } else { i + 1 };
                        assert(store.ids@[i] == before.ids@[oi]);
                        store.lemma_index(o, i);
                        before.lemma_index(o, oi);
                    }
                }
            }
            assert(SessionStore::same_except(&before, store, session_id@));
            true
        },
        None => false,
    }
}

/// Processes one round of incoming messages for the session with this id.
pub fn process_round<P: PartyDriver<Vec<u8>, Vec<u8>>>(
    store: &mut SessionStore<P>,
    session_id: &str,
    incoming: &[WasmSignMessage],
) -> (r: Result<ProcessRoundResult, SignError>)
    requires
        old(store).wf(),
    ensures
        final(store).wf(),
        !old(store).has(session_id@) ==> (r matches Err(SignError::NoSession)) && *final(store) == *old(store),
        old(store).has(session_id@) ==> final(store).has(session_id@) && SignSession::round_post(
            &old(store).session(session_id@),
            &final(store).session(session_id@),
            incoming@,
            r,
        ),
        SessionStore::same_except(old(store), final(store), session_id@),
{
    match store.find(session_id) {
        None => Err(SignError::NoSession),
        Some(k) => {
            let ghost before = *store;
            proof {
                before.lemma_index(session_id@, k as int);
            }
            let r = store.sessions[k].process(incoming);
            proof {
                let id = session_id@;
                assert(store.ids@ == before.ids@);
                store.lemma_index(id, k as int);
                assert forall|o: Seq<char>| o != id implies (#[trigger] store.has(o) == before.has(o)) && (
                before.has(o) ==> store.session(o) == before.session(o)) by {
                    if before.has(o) {
                        let i = before.index(o);
                        before.lemma_index(o, i);
                        store.lemma_index(o, i);
                    }
                    if store.has(o) {
                        let i = store.index(o);
                        store.lemma_index(o, i);
                        before.lemma_index(o, i);
                    }
                }
            }
            r
        },
    }
}

/// Destroying a session twice reports `true` the first time and `false` the
/// second.
pub proof fn destroy_twice<P>(
    s0: SessionStore<P>,
    s1: SessionStore<P>,
    s2: SessionStore<P>,
    id: Seq<char>,
    r1: bool,
    r2: bool,
)
    requires
        s0.has(id),
        SessionStore::destroy_post(&s0, &s1, id, r1),
        SessionStore::destroy_post(&s1, &s2, id, r2),
    ensures
        r1,
        !r2,
{
}

/// On the wire, every message that a party sends names a signing party as
/// its sender and, when it is direct and addressed to a position within the
/// group, a signing party as its recipient.
pub proof fn wire_names_signing_parties(calls: Seq<Call>, me: u16, parties: Seq<u16>)
    requires
        parties.contains(me),
        forall|i: int|
            0 <= i < calls.len() ==> (#[trigger] calls[i] matches Call::Sent { dest: Destination::OneParty(p), .. }
                ==> (p as int) < parties.len()),
    ensures
        forall|i: int|
            0 <= i < emitted(calls, me, parties).len() ==> parties.contains(
                (#[trigger] emitted(calls, me, parties)[i]).sender,
            ) && (emitted(calls, me, parties)[i].recipient matches Some(r) ==> parties.contains(r)),
    decreases calls.len(),
{
    if calls.len() > 0 {
        let prev = calls.drop_last();
        assert forall|i: int|
            0 <= i < prev.len() implies (#[trigger] prev[i] matches Call::Sent { dest: Destination::OneParty(p), .. }
                ==> (p as int) < parties.len()) by {
            assert(prev[i] == calls[i]);
        }
        wire_names_signing_parties(prev, me, parties);
        let last = calls.last();
        assert(last == calls[calls.len() - 1]);
        if let Call::Sent { dest: Destination::OneParty(p), .. } = last {
            assert(parties[p as int] == keygen_index(parties, p));
        }
    }
}

/// Starts a signing session for the party at keygen index `party_index`,
/// whose driver has been built for its position within `parties_at_keygen`:
/// drives it until it blocks, stores it under a fresh id, and returns the id
/// and the first messages.
pub fn create_session<P: PartyDriver<Vec<u8>, Vec<u8>>>(
    store: &mut SessionStore<P>,
    driver: P,
    party_index: u16,
    parties_at_keygen: &[u16],
) -> (r: Result<CreateSessionResult, SignError>)
    requires
        old(store).wf(),
        parties_at_keygen@.len() <= u16::MAX,
    ensures
        final(store).wf(),
        (r is Err && r->Err_0 is UnknownParty) <==> !parties_at_keygen@.contains(party_index),
        r matches Err(SignError::UnknownParty { party_index: p }) ==> p == party_index,
        r is Err ==> *final(store) == *old(store),
        r is Err ==> r->Err_0 is UnknownParty || r->Err_0 is Protocol || r->Err_0 is Stalled
            || r->Err_0 is BadSignature || r->Err_0 is UnknownRecipient || r->Err_0 is NoRandomness
            || r->Err_0 is DuplicateId,
        (r is Err && r->Err_0 is DuplicateId) ==> exists|raw: Seq<u8>|
            raw.len() == 16 && old(store).has(#[trigger] uuid_text(raw)),
        r matches Ok(res) ==> {
            let s = final(store).session(res.session_id@);
            &&& !old(store).has(res.session_id@)
            &&& final(store).has(res.session_id@)
            &&& forall|i: int| 0 <= i < res.messages@.len() ==> in_group(
                #[trigger] res.messages@[i]@,
                parties_at_keygen@,
            )
            &&& exists|raw: Seq<u8>| raw.len() == 16 && res.session_id@ == uuid_text(raw)
            &&& s.me() == party_index
            &&& s.parties() == parties_at_keygen@
            &&& s.deliveries().len() == 0
            &&& is_drain(s.calls())
            &&& res.messages@.map_values(|m: WasmSignMessage| m@) == emitted(s.calls(), party_index, parties_at_keygen@)
            &&& s.calls().last() is Waiting ==> s.sig() is None
            &&& SessionStore::same_except(old(store), final(store), res.session_id@)
        },
{
    if position_of(parties_at_keygen, party_index).is_none() {
        return Err(SignError::UnknownParty { party_index });
    }
    let parties = vstd::slice::slice_to_vec(parties_at_keygen);
    let mut session = SignSession {
        driver,
        party_index,
        parties_at_keygen: parties,
        signature: None,
        calls: Ghost(Seq::empty()),
        deliveries: Ghost(Seq::empty()),
    };
    let messages = match session.drive_batch() {
        Ok(m) => m,
        Err(e) => {
            return Err(e);
        },
    };
    proof {
        assert(added(Seq::<Call>::empty(), session.calls@) =~= session.calls@);
    }
    let session_id = match uuid_v4() {
        Some(id) => id,
        None => {
            return Err(SignError::NoRandomness);
        },
    };
    if store.find(session_id.as_str()).is_some() {
        return Err(SignError::DuplicateId);
    }
    store.insert(session_id.clone(), session);
    Ok(CreateSessionResult { session_id, messages })
}

/// The decoded fields of the record that starts a signing session.
pub struct SignRequest {
    pub core_share: Vec<u8>,
    pub aux_info: Vec<u8>,
    pub message_hash: Vec<u8>,
    pub eid: Vec<u8>,
    /// The party's position within the signing group.
    pub party_position: u16,
}

/// Decodes and checks the init record: the key material is base64, the
/// message hash and execution id are hex, the hash is 32 bytes, and the
/// party's keygen index is among the signing parties.
pub fn prepare_signing(
    core_share: &str,
    aux_info: &str,
    message_hash: &str,
    eid: &str,
    party_index: u16,
    parties_at_keygen: &[u16],
) -> (r: Result<SignRequest, SignError>)
    requires
        parties_at_keygen@.len() <= u16::MAX,
    ensures
        r matches Err(SignError::BadEncoding { field: InitField::CoreShare }) <==> !is_base64(core_share@),
        r matches Err(SignError::BadEncoding { field: InitField::AuxInfo }) <==> is_base64(core_share@)
            && !is_base64(aux_info@),
        r matches Err(SignError::BadEncoding { field: InitField::MessageHash }) <==> is_base64(core_share@)
            && is_base64(aux_info@) && !is_hex(message_hash.spec_bytes()),
        r matches Err(SignError::BadEncoding { field: InitField::Eid }) <==> is_base64(core_share@)
            && is_base64(aux_info@) && is_hex(message_hash.spec_bytes()) && !is_hex(eid.spec_bytes()),
        r matches Err(SignError::HashLength { len }) ==> len == hex_bytes(message_hash.spec_bytes()).len(),
        (r is Err && r->Err_0 is HashLength) <==> is_base64(core_share@) && is_base64(aux_info@) && is_hex(
            message_hash.spec_bytes(),
        ) && is_hex(eid.spec_bytes()) && hex_bytes(message_hash.spec_bytes()).len() != SCALAR_LEN,
        (r is Err && r->Err_0 is UnknownParty) <==> is_base64(core_share@) && is_base64(aux_info@) && is_hex(
            message_hash.spec_bytes(),
        ) && is_hex(eid.spec_bytes()) && hex_bytes(message_hash.spec_bytes()).len() == SCALAR_LEN
            && !parties_at_keygen@.contains(party_index),
        r matches Err(SignError::UnknownParty { party_index: p }) ==> p == party_index,
        r is Err ==> r->Err_0 is BadEncoding || r->Err_0 is HashLength || r->Err_0 is UnknownParty,
        r matches Ok(req) ==> {
            &&& base64_text(req.core_share@) == core_share@
            &&& base64_text(req.aux_info@) == aux_info@
            &&& req.message_hash@ == hex_bytes(message_hash.spec_bytes())
            &&& req.message_hash@.len() == SCALAR_LEN
            &&& req.eid@ == hex_bytes(eid.spec_bytes())
            &&& is_first_position(parties_at_keygen@, party_index, req.party_position as int)
        },
{
    let core = match base64_decode(core_share) {
        Some(b) => b,
        None => {
            return Err(SignError::BadEncoding { field: InitField::CoreShare });
        },
    };
    let aux = match base64_decode(aux_info) {
        Some(b) => b,
        None => {
            return Err(SignError::BadEncoding { field: InitField::AuxInfo });
        },
    };
    let hash = match hex_decode(message_hash.as_bytes()) {
        Some(b) => b,
        None => {
            return Err(SignError::BadEncoding { field: InitField::MessageHash });
        },
    };
    let eid_bytes = match hex_decode(eid.as_bytes()) {
        Some(b) => b,
        None => {
            return Err(SignError::BadEncoding { field: InitField::Eid });
        },
    };
    if hash.len() != SCALAR_LEN {
        return Err(SignError::HashLength { len: hash.len() });
    }
    let pos = match position_of(parties_at_keygen, party_index) {
        Some(p) => p,
        None => {
            return Err(SignError::UnknownParty { party_index });
        },
    };
    Ok(SignRequest { core_share: core, aux_info: aux, message_hash: hash, eid: eid_bytes, party_position: pos as u16 })
}

} // verus!
