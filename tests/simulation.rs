use std::collections::VecDeque;

use mpc_core::driver::{Destination, DriveOutcome, MsgKind, Outgoing, PartyDriver};
use mpc_core::simulate::{collect_outputs, run, Mailboxes, SimError};

/// Broadcasts its own index, sends one direct message to the next party,
/// then waits for every other party's broadcast and the direct message from
/// the previous party; its output lists what it received, in order.
struct Gossip {
    me: u16,
    n: u16,
    outbox: VecDeque<Outgoing<String>>,
    received: Vec<(u16, MsgKind, String)>,
    done: bool,
}

impl Gossip {
    fn new(me: u16, n: u16) -> Self {
        let mut outbox = VecDeque::new();
        outbox.push_back(Outgoing { dest: Destination::AllParties, msg: format!("hello from {me}") });
        outbox.push_back(Outgoing { dest: Destination::OneParty((me + 1) % n), msg: format!("secret for {}", (me + 1) % n) });
        Gossip { me, n, outbox, received: Vec::new(), done: false }
    }
}

impl PartyDriver<String, Vec<(u16, MsgKind, String)>> for Gossip {
    fn drive_one(&mut self) -> Result<DriveOutcome<String, Vec<(u16, MsgKind, String)>>, String> {
        if let Some(out) = self.outbox.pop_front() {
            return Ok(DriveOutcome::SendMsg(out));
        }
        if self.done {
            return Err("finished twice".to_string());
        }
        if self.received.len() == self.n as usize {
            self.done = true;
            return Ok(DriveOutcome::Finished(self.received.clone()));
        }
        Ok(DriveOutcome::NeedsInput)
    }

    fn receive(&mut self, sender: u16, kind: MsgKind, msg: &String) -> Result<(), String> {
        assert_ne!(sender, self.me);
        self.received.push((sender, kind, msg.clone()));
        Ok(())
    }
}

/// Never makes progress.
struct Stuck;

impl PartyDriver<u8, u8> for Stuck {
    fn drive_one(&mut self) -> Result<DriveOutcome<u8, u8>, String> {
        Ok(DriveOutcome::NeedsInput)
    }

    fn receive(&mut self, _sender: u16, _kind: MsgKind, _msg: &u8) -> Result<(), String> {
        Ok(())
    }
}

/// Finishes at once with its own number.
struct Instant(u32);

impl PartyDriver<u8, u32> for Instant {
    fn drive_one(&mut self) -> Result<DriveOutcome<u8, u32>, String> {
        Ok(DriveOutcome::Finished(self.0))
    }

    fn receive(&mut self, _sender: u16, _kind: MsgKind, _msg: &u8) -> Result<(), String> {
        Err("no messages expected".to_string())
    }
}

/// Sends a direct message to a position outside the group.
struct Stray;

impl PartyDriver<u8, u8> for Stray {
    fn drive_one(&mut self) -> Result<DriveOutcome<u8, u8>, String> {
        Ok(DriveOutcome::SendMsg(Outgoing { dest: Destination::OneParty(9), msg: 0 }))
    }

    fn receive(&mut self, _sender: u16, _kind: MsgKind, _msg: &u8) -> Result<(), String> {
        Ok(())
    }
}

/// Fails on its first step.
struct Broken;

impl PartyDriver<u8, u8> for Broken {
    fn drive_one(&mut self) -> Result<DriveOutcome<u8, u8>, String> {
        Err("bad proof".to_string())
    }

    fn receive(&mut self, _sender: u16, _kind: MsgKind, _msg: &u8) -> Result<(), String> {
        Ok(())
    }
}

#[test]
fn gossip_outputs_come_back_in_party_order() {
    let n = 3u16;
    let parties: Vec<Gossip> = (0..n).map(|i| Gossip::new(i, n)).collect();
    let outputs = match run(parties).0 {
        Ok(o) => o,
        Err(_) => panic!("simulation failed"),
    };
    assert_eq!(outputs.len(), 3);
    // Party 1 hears party 0's broadcast, then party 0's direct message, then party 2's broadcast.
    assert_eq!(
        outputs[1],
        vec![
            (0, MsgKind::Broadcast, "hello from 0".to_string()),
            (0, MsgKind::P2P, "secret for 1".to_string()),
            (2, MsgKind::Broadcast, "hello from 2".to_string()),
        ]
    );
    // Party 0 hears party 1's broadcast, then party 2's broadcast, then party 2's direct message.
    assert_eq!(
        outputs[0],
        vec![
            (1, MsgKind::Broadcast, "hello from 1".to_string()),
            (2, MsgKind::Broadcast, "hello from 2".to_string()),
            (2, MsgKind::P2P, "secret for 0".to_string()),
        ]
    );
    for (i, out) in outputs.iter().enumerate() {
        assert!(out.iter().all(|(s, _, _)| *s as usize != i));
    }
}

#[test]
fn smallest_group_of_two_completes() {
    let parties = vec![Gossip::new(0, 2), Gossip::new(1, 2)];
    let outputs = match run(parties).0 {
        Ok(o) => o,
        Err(_) => panic!("simulation failed"),
    };
    assert_eq!(outputs.len(), 2);
    assert_eq!(outputs[0].len(), 2);
    assert_eq!(outputs[1][0], (0, MsgKind::Broadcast, "hello from 0".to_string()));
}

#[test]
fn stuck_parties_stop_at_the_sweep_cap() {
    let parties = vec![Stuck, Stuck, Stuck];
    match run(parties).0 {
        Err(SimError::DidNotComplete { finished, total }) => {
            assert_eq!(finished, 0);
            assert_eq!(total, 3);
        }
        _ => panic!("expected the sweep cap to trip"),
    }
}

#[test]
fn no_parties_give_no_outputs() {
    let parties: Vec<Stuck> = Vec::new();
    match run(parties).0 {
        Ok(o) => assert!(o.is_empty()),
        Err(_) => panic!("an empty simulation succeeds"),
    }
}

#[test]
fn instant_parties_keep_their_order() {
    let parties = vec![Instant(7), Instant(3), Instant(5)];
    match run(parties).0 {
        Ok(o) => assert_eq!(o, vec![7, 3, 5]),
        Err(_) => panic!("simulation failed"),
    }
}

#[test]
fn recipient_outside_the_group_is_refused() {
    match run(vec![Stray, Stray]).0 {
        Err(SimError::UnknownRecipient { party, recipient }) => {
            assert_eq!(party, 0);
            assert_eq!(recipient, 9);
        }
        _ => panic!("expected an unknown recipient"),
    }
}

#[test]
fn protocol_error_names_the_party() {
    match run(vec![Broken, Broken]).0 {
        Err(SimError::ProtocolError { party, reason }) => {
            assert_eq!(party, 0);
            assert_eq!(reason, "bad proof");
        }
        _ => panic!("expected a protocol error"),
    }
}

#[test]
fn collect_outputs_reports_first_missing() {
    match collect_outputs(vec![Some(1u8), None, None]) {
        Err(SimError::MissingOutput { party }) => assert_eq!(party, 1),
        _ => panic!("expected a missing output"),
    }
    match collect_outputs(vec![Some(4u8), Some(2)]) {
        Ok(v) => assert_eq!(v, vec![4, 2]),
        Err(_) => panic!("all outputs are there"),
    }
}

#[test]
fn broadcast_skips_sender_and_numbers_placements() {
    let mut mail: Mailboxes<&str> = Mailboxes::new(3);
    mail.post(1, Destination::AllParties, "b");
    mail.post(0, Destination::OneParty(2), "p");
    assert_eq!(mail.first_free(), 3);
    assert!(mail.take(1).is_none());
    let first = mail.take(2).expect("party 2 has mail");
    assert_eq!(first.id, 1);
    assert_eq!(first.sender, 1);
    assert_eq!(first.kind, MsgKind::Broadcast);
    assert_eq!(*mail.message(first), "b");
    let second = mail.take(2).expect("party 2 has a second letter");
    assert_eq!(second.id, 2);
    assert_eq!(second.sender, 0);
    assert_eq!(second.kind, MsgKind::P2P);
    assert_eq!(*mail.message(second), "p");
    let to_zero = mail.take(0).expect("party 0 has mail");
    assert_eq!(to_zero.id, 0);
    assert!(mail.take(0).is_none());
}
