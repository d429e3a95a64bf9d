use mpc_core::dkg::{
    check_params, collect_party_results, encode_all, gen_aux_info, run_dkg, run_dkg_with_aux, select_aux_infos,
    select_primes, AuxInfoOutput, DkgError, KeygenOutput, Phase,
};
use mpc_core::driver::{Destination, DriveOutcome, MsgKind, Outgoing, PartyDriver};
use mpc_core::simulate::SimError;

/// Broadcasts once, waits for everyone else's broadcast, then finishes with
/// what `finish` makes of its own index.
struct Round<O> {
    me: u16,
    n: u16,
    sent: bool,
    heard: u16,
    finish: fn(u16) -> O,
    done: bool,
}

impl<O> Round<O> {
    fn group(n: u16, finish: fn(u16) -> O) -> Vec<Self> {
        (0..n).map(|me| Round { me, n, sent: false, heard: 0, finish, done: false }).collect()
    }
}

impl<O> PartyDriver<u16, O> for Round<O> {
    fn drive_one(&mut self) -> Result<DriveOutcome<u16, O>, String> {
        if !self.sent {
            self.sent = true;
            return Ok(DriveOutcome::SendMsg(Outgoing { dest: Destination::AllParties, msg: self.me }));
        }
        if self.heard + 1 == self.n && !self.done {
            self.done = true;
            return Ok(DriveOutcome::Finished((self.finish)(self.me)));
        }
        Ok(DriveOutcome::NeedsInput)
    }

    fn receive(&mut self, sender: u16, kind: MsgKind, msg: &u16) -> Result<(), String> {
        assert_eq!(kind, MsgKind::Broadcast);
        assert_eq!(sender, *msg);
        self.heard += 1;
        Ok(())
    }
}

fn aux_ok(me: u16) -> Result<Vec<u8>, String> {
    Ok(format!("aux {me}").into_bytes())
}

fn keygen_ok(me: u16) -> Result<KeygenOutput, String> {
    let mut public_key = vec![2u8];
    public_key.extend(std::iter::repeat(0x11).take(32));
    Ok(KeygenOutput { core_share: format!("core {me}").into_bytes(), public_key })
}

fn keygen_party_two_fails(me: u16) -> Result<KeygenOutput, String> {
    if me == 2 {
        Err("bad share".to_string())
    } else {
        keygen_ok(me)
    }
}

fn keygen_short_key(me: u16) -> Result<KeygenOutput, String> {
    Ok(KeygenOutput { core_share: vec![me as u8], public_key: vec![2, 3] })
}

#[test]
fn params_are_checked_in_order() {
    assert!(check_params(2, 2).is_ok());
    assert!(check_params(3, 3).is_ok());
    assert!(check_params(3, 2).is_ok());
    assert!(matches!(check_params(1, 2), Err(DkgError::TooFewParties { n: 1 })));
    assert!(matches!(check_params(1, 1), Err(DkgError::TooFewParties { n: 1 })));
    assert!(matches!(check_params(3, 1), Err(DkgError::BadThreshold { n: 3, threshold: 1 })));
    assert!(matches!(check_params(3, 4), Err(DkgError::BadThreshold { n: 3, threshold: 4 })));
}

#[test]
fn full_ceremony_gives_one_share_per_party() {
    let out = match run_dkg(3, 2, Round::group(3, aux_ok), Round::group(3, keygen_ok)).0 {
        Ok(o) => o,
        Err(_) => panic!("ceremony failed"),
    };
    assert_eq!(out.shares.len(), 3);
    assert_eq!(out.public_key, format!("02{}", "11".repeat(32)));
    // "core 1" and "aux 1" in base64
    assert_eq!(out.shares[1].core_share, "Y29yZSAx");
    assert_eq!(out.shares[1].aux_info, "YXV4IDE=");
}

#[test]
fn smallest_ceremony_two_of_two() {
    let out = match run_dkg(2, 2, Round::group(2, aux_ok), Round::group(2, keygen_ok)).0 {
        Ok(o) => o,
        Err(_) => panic!("ceremony failed"),
    };
    assert_eq!(out.shares.len(), 2);
    assert_eq!(out.public_key.len(), 66);
}

#[test]
fn bad_threshold_stops_before_any_phase() {
    assert!(matches!(
        run_dkg(3, 4, Round::group(3, aux_ok), Round::group(3, keygen_ok)).0,
        Err(DkgError::BadThreshold { n: 3, threshold: 4 })
    ));
}

#[test]
fn failing_party_is_named() {
    match run_dkg(3, 2, Round::group(3, aux_ok), Round::group(3, keygen_party_two_fails)).0 {
        Err(DkgError::PartyFailed { phase, party, reason }) => {
            assert_eq!(phase, Phase::Keygen);
            assert_eq!(party, 2);
            assert_eq!(reason, "bad share");
        }
        _ => panic!("expected a failed party"),
    }
}

#[test]
fn short_public_key_is_refused() {
    assert!(matches!(
        run_dkg(2, 2, Round::group(2, aux_ok), Round::group(2, keygen_short_key)).0,
        Err(DkgError::BadPublicKey { len: 2 })
    ));
}

#[test]
fn stalled_phase_reports_simulation_error() {
    // Two parties that expect a third party's broadcast never finish.
    let mut parties = Round::group(3, aux_ok);
    parties.pop();
    match run_dkg(2, 2, parties, Round::group(2, keygen_ok)).0 {
        Err(DkgError::Simulation { phase, error: SimError::DidNotComplete { finished, total } }) => {
            assert_eq!(phase, Phase::AuxInfo);
            assert_eq!((finished, total), (0, 2));
        }
        _ => panic!("expected the aux phase to stall"),
    }
}

#[test]
fn cached_aux_info_is_passed_through() {
    let aux = AuxInfoOutput { aux_infos: vec!["QQ==".to_string(), "Qg==".to_string(), "Qw==".to_string()], n: 3 };
    let out = match run_dkg_with_aux(3, 2, Round::group(3, keygen_ok), &aux).0 {
        Ok(o) => o,
        Err(_) => panic!("ceremony failed"),
    };
    assert_eq!(out.shares.len(), 3);
    assert_eq!(out.shares[0].aux_info, "QQ==");
    assert_eq!(out.shares[2].aux_info, "Qw==");
    assert_eq!(out.shares[2].core_share, "Y29yZSAy");
}

#[test]
fn too_little_cached_aux_info_is_refused() {
    let aux = AuxInfoOutput { aux_infos: vec!["QQ==".to_string(), "Qg==".to_string()], n: 2 };
    assert!(matches!(
        run_dkg_with_aux(3, 2, Round::group(3, keygen_ok), &aux).0,
        Err(DkgError::NotEnoughAuxInfo { need: 3, got: 2 })
    ));
    let aux = AuxInfoOutput { aux_infos: vec!["QQ==".to_string(), "Qg==".to_string(), "Qw==".to_string()], n: 2 };
    assert!(matches!(select_aux_infos(&aux, 3), Err(DkgError::NotEnoughAuxInfo { need: 3, got: 3 })));
}

#[test]
fn cached_aux_info_decodes() {
    let aux = AuxInfoOutput { aux_infos: vec!["QQ==".to_string(), "%".to_string(), "Qw==".to_string()], n: 3 };
    match select_aux_infos(&aux, 1) {
        Ok(v) => assert_eq!(v, vec![b"A".to_vec()]),
        Err(_) => panic!("first record is valid"),
    }
    assert!(matches!(select_aux_infos(&aux, 3), Err(DkgError::BadAuxInfo { index: 1 })));
}

#[test]
fn primes_take_the_first_n_lines() {
    let lines = vec!["QQ==".to_string(), "Qg==".to_string(), "Qw==".to_string()];
    match select_primes(&lines, 2) {
        Ok(v) => assert_eq!(v, vec![b"A".to_vec(), b"B".to_vec()]),
        Err(_) => panic!("primes are valid"),
    }
    assert!(matches!(select_primes(&lines, 4), Err(DkgError::NotEnoughPrimes { need: 4, got: 3 })));
    let bad = vec!["QQ==".to_string(), "Q".to_string()];
    assert!(matches!(select_primes(&bad, 2), Err(DkgError::BadPrimes { index: 1 })));
}

#[test]
fn aux_generation_encodes_every_record() {
    let out = match gen_aux_info(3, Round::group(3, aux_ok)).0 {
        Ok(o) => o,
        Err(_) => panic!("aux generation failed"),
    };
    assert_eq!(out.n, 3);
    assert_eq!(out.aux_infos, vec!["YXV4IDA=", "YXV4IDE=", "YXV4IDI="]);
}

#[test]
fn party_results_report_first_failure() {
    let results: Vec<Result<u8, String>> = vec![Ok(1), Err("x".to_string()), Err("y".to_string())];
    assert_eq!(collect_party_results(results), Err((1, "x".to_string())));
    let results: Vec<Result<u8, String>> = vec![Ok(1), Ok(2)];
    assert_eq!(collect_party_results(results), Ok(vec![1, 2]));
}

#[test]
fn encode_all_uses_standard_base64() {
    let blobs = vec![b"hello".to_vec(), vec![], vec![0xff, 0xfe]];
    assert_eq!(encode_all(&blobs), vec!["aGVsbG8=", "", "//4="]);
}
