use std::cell::RefCell;
use std::collections::VecDeque;
use std::rc::Rc;

use mpc_core::driver::{Destination, DriveOutcome, MsgKind, Outgoing, PartyDriver};
use mpc_core::sign::{
    create_session, destroy_session, format_uuid, mpc_msg_to_wasm, position_of, prepare_signing, process_round,
    signature_from_bytes, signature_hex, uuid_v4, InitField, SessionStore, SignError, WasmSignMessage,
};
use mpc_core::types::{MpcMessage, MpcRecipient, SignatureResult};

type Log = Rc<RefCell<Vec<String>>>;

/// A stand-in for a signing state machine: every delivered message is echoed
/// to all parties, a scripted list of first steps runs at the start, and the
/// machine finishes once it has seen `finish_after` deliveries.
struct Echo {
    log: Log,
    pending: VecDeque<DriveOutcome<Vec<u8>, Vec<u8>>>,
    seen: usize,
    finish_after: usize,
}

impl Echo {
    fn new(log: &Log, first: Vec<DriveOutcome<Vec<u8>, Vec<u8>>>, finish_after: usize) -> Self {
        Echo { log: log.clone(), pending: first.into_iter().collect(), seen: 0, finish_after }
    }
}

fn signature_bytes() -> Vec<u8> {
    (0u8..64).collect()
}

impl PartyDriver<Vec<u8>, Vec<u8>> for Echo {
    fn drive_one(&mut self) -> Result<DriveOutcome<Vec<u8>, Vec<u8>>, String> {
        self.log.borrow_mut().push("drive".to_string());
        if let Some(o) = self.pending.pop_front() {
            return Ok(o);
        }
        if self.finish_after > 0 && self.seen >= self.finish_after {
            return Ok(DriveOutcome::Finished(signature_bytes()));
        }
        Ok(DriveOutcome::NeedsInput)
    }

    fn receive(&mut self, sender: u16, kind: MsgKind, msg: &Vec<u8>) -> Result<(), String> {
        let text = String::from_utf8(msg.clone()).unwrap();
        self.log.borrow_mut().push(format!("receive {sender} {kind:?} {text}"));
        self.seen += 1;
        let mut echo = b"echo ".to_vec();
        echo.extend_from_slice(msg);
        self.pending.push_back(DriveOutcome::Yielded);
        self.pending.push_back(DriveOutcome::SendMsg(Outgoing { dest: Destination::AllParties, msg: echo }));
        Ok(())
    }
}

fn wire(sender: u16, is_broadcast: bool, recipient: Option<u16>, payload: &str) -> WasmSignMessage {
    WasmSignMessage { sender, is_broadcast, recipient, payload: payload.to_string() }
}

fn start(log: &Log, first: Vec<DriveOutcome<Vec<u8>, Vec<u8>>>, finish_after: usize, me: u16, parties: &[u16]) -> (SessionStore<Echo>, String) {
    let mut store = SessionStore::new();
    let created = match create_session(&mut store, Echo::new(log, first, finish_after), me, parties) {
        Ok(c) => c,
        Err(e) => panic!("session did not start: {e:?}"),
    };
    (store, created.session_id)
}

#[test]
fn first_messages_translate_positions_to_keygen_indices() {
    let log: Log = Rc::default();
    let first = vec![
        DriveOutcome::SendMsg(Outgoing { dest: Destination::AllParties, msg: b"round one".to_vec() }),
        DriveOutcome::SendMsg(Outgoing { dest: Destination::OneParty(0), msg: b"to position 0".to_vec() }),
    ];
    let mut store = SessionStore::new();
    let created = match create_session(&mut store, Echo::new(&log, first, 0), 2, &[1, 2]) {
        Ok(c) => c,
        Err(e) => panic!("session did not start: {e:?}"),
    };
    assert_eq!(created.messages.len(), 2);
    let b = &created.messages[0];
    assert_eq!((b.sender, b.is_broadcast, b.recipient), (2, true, None));
    assert_eq!(b.payload, "cm91bmQgb25l");
    let p = &created.messages[1];
    assert_eq!((p.sender, p.is_broadcast, p.recipient), (2, false, Some(1)));
    assert_eq!(p.payload, "dG8gcG9zaXRpb24gMA==");
    assert_eq!(*log.borrow(), vec!["drive", "drive", "drive"]);
}

#[test]
fn incoming_sender_translates_to_position() {
    let log: Log = Rc::default();
    let (mut store, id) = start(&log, vec![], 0, 1, &[1, 2]);
    log.borrow_mut().clear();
    // keygen index 2 is at position 1; "aGk=" is base64 of "hi"
    let res = process_round(&mut store, &id, &[wire(2, true, None, "aGk=")]).expect("round");
    assert_eq!(*log.borrow(), vec!["receive 1 Broadcast hi", "drive", "drive", "drive"]);
    assert_eq!(res.messages.len(), 1);
    assert_eq!(res.messages[0].payload, "ZWNobyBoaQ==");
    assert_eq!(res.messages[0].sender, 1);
    assert!(!res.complete);
}

#[test]
fn drives_after_each_delivery() {
    let log: Log = Rc::default();
    let (mut store, id) = start(&log, vec![], 0, 0, &[0, 1, 2]);
    log.borrow_mut().clear();
    let incoming = [wire(1, true, None, "YQ=="), wire(2, true, None, "Yg==")];
    let res = process_round(&mut store, &id, &incoming).expect("round");
    assert_eq!(
        *log.borrow(),
        vec![
            "receive 1 Broadcast a", "drive", "drive", "drive",
            "receive 2 Broadcast b", "drive", "drive", "drive",
        ]
    );
    let payloads: Vec<&str> = res.messages.iter().map(|m| m.payload.as_str()).collect();
    assert_eq!(payloads, vec!["ZWNobyBh", "ZWNobyBi"]);
}

#[test]
fn direct_message_for_another_party_is_skipped() {
    let log: Log = Rc::default();
    let (mut store, id) = start(&log, vec![], 0, 0, &[0, 1, 2]);
    log.borrow_mut().clear();
    let incoming = [wire(1, false, Some(2), "YQ=="), wire(1, false, Some(0), "Yg==")];
    let res = process_round(&mut store, &id, &incoming).expect("round");
    assert_eq!(*log.borrow(), vec!["receive 1 P2P b", "drive", "drive", "drive"]);
    assert_eq!(res.messages.len(), 1);
}

#[test]
fn round_with_only_foreign_messages_still_drives() {
    let log: Log = Rc::default();
    let (mut store, id) = start(&log, vec![], 0, 0, &[0, 1]);
    log.borrow_mut().clear();
    let res = process_round(&mut store, &id, &[wire(1, false, Some(1), "YQ==")]).expect("round");
    assert_eq!(*log.borrow(), vec!["drive"]);
    assert!(res.messages.is_empty());
    assert!(!res.complete);
}

#[test]
fn unknown_sender_aborts_the_round() {
    let log: Log = Rc::default();
    let (mut store, id) = start(&log, vec![], 0, 0, &[0, 1]);
    match process_round(&mut store, &id, &[wire(5, true, None, "YQ==")]) {
        Err(SignError::UnknownSender { sender }) => assert_eq!(sender, 5),
        _ => panic!("expected an unknown sender"),
    }
}

#[test]
fn bad_payload_is_refused() {
    let log: Log = Rc::default();
    let (mut store, id) = start(&log, vec![], 0, 0, &[0, 1]);
    assert!(matches!(process_round(&mut store, &id, &[wire(1, true, None, "not base64!")]), Err(SignError::BadPayload)));
}

#[test]
fn finished_round_carries_signature() {
    let log: Log = Rc::default();
    let (mut store, id) = start(&log, vec![], 1, 0, &[0, 1]);
    let res = process_round(&mut store, &id, &[wire(1, true, None, "YQ==")]).expect("round");
    assert!(res.complete);
    let sig = res.signature.expect("signature");
    assert_eq!(sig.r, (0u8..32).collect::<Vec<u8>>());
    assert_eq!(sig.s, (32u8..64).collect::<Vec<u8>>());
}

#[test]
fn unknown_session_is_reported() {
    let mut store: SessionStore<Echo> = SessionStore::new();
    assert!(matches!(process_round(&mut store, "nope", &[]), Err(SignError::NoSession)));
}

#[test]
fn destroy_twice_reports_true_then_false() {
    let log: Log = Rc::default();
    let (mut store, id) = start(&log, vec![], 0, 0, &[0, 1]);
    assert!(destroy_session(&mut store, &id));
    assert!(!destroy_session(&mut store, &id));
    assert!(matches!(process_round(&mut store, &id, &[]), Err(SignError::NoSession)));
}

#[test]
fn party_outside_group_cannot_start() {
    let log: Log = Rc::default();
    let mut store = SessionStore::new();
    match create_session(&mut store, Echo::new(&log, vec![], 0), 3, &[0, 2]) {
        Err(SignError::UnknownParty { party_index }) => assert_eq!(party_index, 3),
        _ => panic!("expected an unknown party"),
    }
    assert!(log.borrow().is_empty());
}

#[test]
fn session_ids_are_version_four_uuids() {
    let id = uuid_v4().expect("randomness");
    assert_eq!(id.len(), 36);
    let parts: Vec<&str> = id.split('-').collect();
    assert_eq!(parts.iter().map(|p| p.len()).collect::<Vec<_>>(), vec![8, 4, 4, 4, 12]);
    assert!(parts[2].starts_with('4'));
    assert!(matches!(parts[3].chars().next(), Some('8' | '9' | 'a' | 'b')));
}

#[test]
fn uuid_format_sets_version_and_variant() {
    let raw = [0xffu8; 16];
    assert_eq!(format_uuid(raw), "ffffffff-ffff-4fff-bfff-ffffffffffff");
    let raw: [u8; 16] = [0, 1, 2, 3, 4, 5, 6, 7, 8, 9, 10, 11, 12, 13, 14, 15];
    assert_eq!(format_uuid(raw), "00010203-0405-4607-8809-0a0b0c0d0e0f");
}

#[test]
fn position_is_first_occurrence() {
    assert_eq!(position_of(&[1, 2], 2), Some(1));
    assert_eq!(position_of(&[4, 4], 4), Some(0));
    assert_eq!(position_of(&[0, 1], 7), None);
}

#[test]
fn outbound_recipient_maps_position_to_keygen_index() {
    let parties = [1u16, 2];
    let m = MpcMessage { sender: 2, recipient: MpcRecipient::Party(0), payload: "x".to_string() };
    let w = mpc_msg_to_wasm(m, &parties);
    assert_eq!((w.sender, w.is_broadcast, w.recipient), (2, false, Some(1)));
    let m = MpcMessage { sender: 2, recipient: MpcRecipient::Party(1), payload: "x".to_string() };
    assert_eq!(mpc_msg_to_wasm(m, &parties).recipient, Some(2));
    let m = MpcMessage { sender: 1, recipient: MpcRecipient::Broadcast("all".to_string()), payload: "y".to_string() };
    let w = mpc_msg_to_wasm(m, &parties);
    assert!(w.is_broadcast);
    assert_eq!(w.recipient, None);
    assert_eq!(w.payload, "y");
}

#[test]
fn signature_splits_and_prints_as_hex() {
    let sig = signature_from_bytes(&signature_bytes()).expect("64 bytes");
    let (r, s) = signature_hex(&sig);
    assert_eq!(r, "000102030405060708090a0b0c0d0e0f101112131415161718191a1b1c1d1e1f");
    assert_eq!(s, "202122232425262728292a2b2c2d2e2f303132333435363738393a3b3c3d3e3f");
    assert!(signature_from_bytes(&[0u8; 63]).is_none());
    let direct = SignatureResult { r: vec![0xab], s: vec![0x01, 0xff] };
    assert_eq!(signature_hex(&direct), ("ab".to_string(), "01ff".to_string()));
}

#[test]
fn init_record_decodes() {
    let hash = "00".repeat(31) + "FF";
    let eid = "ab".repeat(32);
    let req = match prepare_signing("aGVsbG8=", "d29ybGQ=", &hash, &eid, 2, &[1, 2]) {
        Ok(r) => r,
        Err(e) => panic!("init refused: {e:?}"),
    };
    assert_eq!(req.core_share, b"hello".to_vec());
    assert_eq!(req.aux_info, b"world".to_vec());
    assert_eq!(req.message_hash.len(), 32);
    assert_eq!(req.message_hash[31], 0xff);
    assert_eq!(req.eid, vec![0xab; 32]);
    assert_eq!(req.party_position, 1);
}

#[test]
fn init_record_errors_in_order() {
    let hash = "00".repeat(32);
    let eid = "00".repeat(32);
    assert!(matches!(
        prepare_signing("!!", "d29ybGQ=", &hash, &eid, 0, &[0, 1]),
        Err(SignError::BadEncoding { field: InitField::CoreShare })
    ));
    assert!(matches!(
        prepare_signing("aGVsbG8=", "d29ybGQ", &hash, &eid, 0, &[0, 1]),
        Err(SignError::BadEncoding { field: InitField::AuxInfo })
    ));
    assert!(matches!(
        prepare_signing("aGVsbG8=", "d29ybGQ=", "abc", &eid, 0, &[0, 1]),
        Err(SignError::BadEncoding { field: InitField::MessageHash })
    ));
    assert!(matches!(
        prepare_signing("aGVsbG8=", "d29ybGQ=", &hash, "zz", 0, &[0, 1]),
        Err(SignError::BadEncoding { field: InitField::Eid })
    ));
    assert!(matches!(
        prepare_signing("aGVsbG8=", "d29ybGQ=", "0011", &eid, 0, &[0, 1]),
        Err(SignError::HashLength { len: 2 })
    ));
    assert!(matches!(
        prepare_signing("aGVsbG8=", "d29ybGQ=", &hash, &eid, 1, &[0, 2]),
        Err(SignError::UnknownParty { party_index: 1 })
    ));
}

#[test]
fn bad_payload_stops_after_earlier_deliveries() {
    let log: Log = Rc::default();
    let (mut store, id) = start(&log, vec![], 0, 0, &[0, 1, 2]);
    log.borrow_mut().clear();
    let incoming = [wire(1, true, None, "YQ=="), wire(2, true, None, "YQ")];
    assert!(matches!(process_round(&mut store, &id, &incoming), Err(SignError::BadPayload)));
    assert_eq!(*log.borrow(), vec!["receive 1 Broadcast a", "drive", "drive", "drive"]);
}

#[test]
fn direct_message_outside_group_is_refused() {
    let log: Log = Rc::default();
    let first = vec![DriveOutcome::SendMsg(Outgoing { dest: Destination::OneParty(5), msg: b"x".to_vec() })];
    let mut store = SessionStore::new();
    match create_session(&mut store, Echo::new(&log, first, 0), 0, &[0, 1]) {
        Err(SignError::UnknownRecipient { position }) => assert_eq!(position, 5),
        _ => panic!("expected an unknown recipient"),
    }
}

#[test]
fn signature_on_first_drive_is_kept_in_store() {
    let log: Log = Rc::default();
    let first = vec![DriveOutcome::Finished(signature_bytes())];
    let mut store = SessionStore::new();
    let created = match create_session(&mut store, Echo::new(&log, first, 0), 0, &[0, 1]) {
        Ok(c) => c,
        Err(e) => panic!("session did not start: {e:?}"),
    };
    let sig = store.signature(&created.session_id).expect("finished at once");
    assert_eq!(sig.r[0], 0);
    assert_eq!(sig.s[0], 32);
    assert!(store.signature("other").is_none());
}
