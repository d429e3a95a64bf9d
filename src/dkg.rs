//! Distributed key generation: parameter checks, the two phases run through
//! the local simulator, and the assembly of the output record.

use vstd::prelude::*;

use crate::codec::{base64_decode, base64_encode, base64_text, hex_encode, hex_text, is_base64};
use crate::driver::PartyDriver;
use crate::simulate::{final_output, run, SimError, SimLog};

verus! {

/// One party's key material: base64 of its serialized core share and of its
/// serialized auxiliary info.
pub struct DkgShare {
    pub core_share: String,
    pub aux_info: String,
}

/// Every party's key material and the hex of the shared compressed public key.
pub struct DkgOutput {
    pub shares: Vec<DkgShare>,
    pub public_key: String,
}

/// Auxiliary info generated ahead of key generation: base64 of one serialized
/// record per party.
pub struct AuxInfoOutput {
    pub aux_infos: Vec<String>,
    pub n: u16,
}

/// What one party's key generation produced: its serialized core share and
/// the shared public key in compressed form.
pub struct KeygenOutput {
    pub core_share: Vec<u8>,
    pub public_key: Vec<u8>,
}

/// The phase of key generation in which something failed.
#[derive(Clone, Copy, Debug, PartialEq, Eq, Structural)]
pub enum Phase {
    AuxInfo,
    Keygen,
}

/// Why a key generation ceremony failed.
pub enum DkgError {
    /// Fewer than two parties.
    TooFewParties { n: u16 },
    /// The threshold is outside `[2, n]`.
    BadThreshold { n: u16, threshold: u16 },
    /// Fewer sets of primes than parties.
    NotEnoughPrimes { need: u16, got: usize },
    /// A set of primes is not valid base64.
    BadPrimes { index: usize },
    /// Fewer auxiliary info records than parties.
    NotEnoughAuxInfo { need: u16, got: usize },
    /// An auxiliary info record is not valid base64.
    BadAuxInfo { index: usize },
    /// The simulation of a phase failed.
    Simulation { phase: Phase, error: SimError },
    /// One party's protocol ended in an error.
    PartyFailed { phase: Phase, party: usize, reason: String },
    /// The public key is not a compressed point.
    BadPublicKey { len: usize },
}

/// Length of a compressed public key.
pub const PUBLIC_KEY_LEN: usize = 33;

/// Valid ceremony parameters: at least two parties, and a threshold between
/// two and the number of parties.
pub open spec fn valid_params(n: u16, threshold: u16) -> bool {
    2 <= n && 2 <= threshold <= n
}

/// Checks the number of parties first, then the threshold.
pub fn check_params(n: u16, threshold: u16) -> (r: Result<(), DkgError>)
    ensures
        r is Ok <==> valid_params(n, threshold),
        (r is Err && r->Err_0 is TooFewParties) <==> n < 2,
        (r is Err && r->Err_0 is BadThreshold) <==> 2 <= n && !(2 <= threshold <= n),
        r matches Err(DkgError::TooFewParties { n: m }) ==> m == n,
        r matches Err(DkgError::BadThreshold { n: m, threshold: t }) ==> m == n && t == threshold,
        r is Err ==> r->Err_0 is TooFewParties || r->Err_0 is BadThreshold,
{
    if n < 2 {
        return Err(DkgError::TooFewParties { n });
    }
    if threshold < 2 || threshold > n {
        return Err(DkgError::BadThreshold { n, threshold });
    }
    Ok(())
}

/// Takes every party's output out of its result, in party order, or reports
/// the first party whose protocol failed.
pub fn collect_party_results<T>(results: Vec<Result<T, String>>) -> (r: Result<Vec<T>, (usize, String)>)
    ensures
        r is Ok <==> forall|i: int| 0 <= i < results@.len() ==> (#[trigger] results@[i]) is Ok,
        r matches Ok(v) ==> v@.len() == results@.len() && forall|i: int|
            0 <= i < results@.len() ==> #[trigger] v@[i] == results@[i]->Ok_0,
        r matches Err((party, reason)) ==> party < results@.len() && results@[party as int] == Err::<T, String>(reason)
            && forall|i: int| 0 <= i < party ==> (#[trigger] results@[i]) is Ok,
{
    let ghost all = results@;
    assert(all.len() == results.len());
    let mut rest = results;
    let mut out: Vec<T> = Vec::new();
    let mut i: usize = 0;
    while rest.len() > 0
        invariant
            all == results@,
            all.len() <= usize::MAX,
            i <= all.len(),
            rest@ == all.subrange(i as int, all.len() as int),
            out@.len() == i,
            forall|k: int| 0 <= k < i ==> (#[trigger] all[k]) is Ok && out@[k] == all[k]->Ok_0,
        decreases rest@.len(),
    {
        let o = rest.remove(0);
        assert(o == all[i as int]);
        match o {
            Ok(v) => out.push(v),
            Err(reason) => {
                return Err((i, reason));
            },
        }
        i += 1;
    }
    proof {
        assert(rest@.len() == 0);
    }
    Ok(out)
}

/// Base64 of each blob, in order.
pub fn encode_all(blobs: &[Vec<u8>]) -> (r: Vec<String>)
    ensures
        r@.len() == blobs@.len(),
        forall|i: int| 0 <= i < blobs@.len() ==> (#[trigger] r@[i])@ == base64_text(blobs@[i]@),
{
    let mut out: Vec<String> = Vec::new();
    let mut i: usize = 0;
    while i < blobs.len()
        invariant
            i <= blobs@.len(),
            out@.len() == i,
            forall|k: int| 0 <= k < i ==> (#[trigger] out@[k])@ == base64_text(blobs@[k]@),
        decreases blobs@.len() - i,
    {
        out.push(base64_encode(blobs[i].as_slice()));
        i += 1;
    }
    out
}

/// Decodes the first `n` base64 texts; `None` names the first that is not
/// valid base64.
fn decode_first(texts: &[String], n: usize) -> (r: Result<Vec<Vec<u8>>, usize>)
    requires
        n <= texts@.len(),
    ensures
        r matches Ok(v) ==> v@.len() == n && forall|i: int| 0 <= i < n ==> base64_text((#[trigger] v@[i])@)
            == texts@[i]@,
        r matches Err(index) ==> index < n && (forall|b: Seq<u8>| #[trigger] base64_text(b) != texts@[index as int]@)
            && forall|i: int| 0 <= i < index ==> is_base64(#[trigger] texts@[i]@),
{
    let mut out: Vec<Vec<u8>> = Vec::new();
    let mut i: usize = 0;
    while i < n
        invariant
            i <= n <= texts@.len(),
            out@.len() == i,
            forall|k: int| 0 <= k < i ==> base64_text((#[trigger] out@[k])@) == texts@[k]@,
        decreases n - i,
    {
        match base64_decode(texts[i].as_str()) {
            Some(b) => out.push(b),
            None => {
                proof {
                    assert forall|k: int| 0 <= k < i implies is_base64(#[trigger] texts@[k]@) by {
                        assert(base64_text(out@[k]@) == texts@[k]@);
                    }
                }
                return Err(i);
            },
        }
        i += 1;
    }
    Ok(out)
}

/// The pre-generated primes for the first `n` parties, decoded from base64.
pub fn select_primes(prime_lines: &[String], n: u16) -> (r: Result<Vec<Vec<u8>>, DkgError>)
    ensures
        (r is Err && r->Err_0 is NotEnoughPrimes) <==> prime_lines@.len() < n,
        r matches Err(DkgError::NotEnoughPrimes { need, got }) ==> need == n && got == prime_lines@.len(),
        r matches Err(DkgError::BadPrimes { index }) ==> index < n && forall|b: Seq<u8>| #[trigger] base64_text(
            b,
        ) != prime_lines@[index as int]@,
        r is Err ==> r->Err_0 is NotEnoughPrimes || r->Err_0 is BadPrimes,
        r matches Ok(v) ==> v@.len() == n && forall|i: int| 0 <= i < n ==> base64_text((#[trigger] v@[i])@)
            == prime_lines@[i]@,
{
    if prime_lines.len() < n as usize {
        return Err(DkgError::NotEnoughPrimes { need: n, got: prime_lines.len() });
    }
    match decode_first(prime_lines, n as usize) {
        Ok(v) => Ok(v),
        Err(index) => Err(DkgError::BadPrimes { index }),
    }
}

/// Whether cached auxiliary info covers `n` parties.
pub open spec fn covers(aux: &AuxInfoOutput, n: u16) -> bool {
    aux.n >= n && aux.aux_infos@.len() >= n
}

/// The cached auxiliary info of the first `n` parties, decoded from base64.
pub fn select_aux_infos(aux: &AuxInfoOutput, n: u16) -> (r: Result<Vec<Vec<u8>>, DkgError>)
    ensures
        (r is Err && r->Err_0 is NotEnoughAuxInfo) <==> !covers(aux, n),
        r matches Err(DkgError::NotEnoughAuxInfo { need, got }) ==> need == n && got == aux.aux_infos@.len(),
        r matches Err(DkgError::BadAuxInfo { index }) ==> index < n && forall|b: Seq<u8>| #[trigger] base64_text(
            b,
        ) != aux.aux_infos@[index as int]@,
        r is Err ==> r->Err_0 is NotEnoughAuxInfo || r->Err_0 is BadAuxInfo,
        r matches Ok(v) ==> v@.len() == n && forall|i: int| 0 <= i < n ==> base64_text((#[trigger] v@[i])@)
            == aux.aux_infos@[i]@,
{
    if aux.n < n || aux.aux_infos.len() < n as usize {
        return Err(DkgError::NotEnoughAuxInfo { need: n, got: aux.aux_infos.len() });
    }
    match decode_first(aux.aux_infos.as_slice(), n as usize) {
        Ok(v) => Ok(v),
        Err(index) => Err(DkgError::BadAuxInfo { index }),
    }
}

/// The output record: each party's core share in base64 beside its
/// auxiliary info text, and the hex of the public key that party 0 reports.
pub fn assemble_dkg_output(cores: &[KeygenOutput], aux_infos: &[String]) -> (r: DkgOutput)
    requires
        cores@.len() == aux_infos@.len() > 0,
    ensures
        r.shares@.len() == cores@.len(),
        forall|i: int| 0 <= i < cores@.len() ==> (#[trigger] r.shares@[i]).core_share@ == base64_text(
            cores@[i].core_share@,
        ) && r.shares@[i].aux_info@ == aux_infos@[i]@,
        r.public_key@ == hex_text(cores@[0].public_key@),
{
    let mut shares: Vec<DkgShare> = Vec::new();
    let mut i: usize = 0;
    while i < cores.len()
        invariant
            i <= cores@.len() == aux_infos@.len(),
            shares@.len() == i,
            forall|k: int| 0 <= k < i ==> (#[trigger] shares@[k]).core_share@ == base64_text(cores@[k].core_share@)
                && shares@[k].aux_info@ == aux_infos@[k]@,
        decreases cores@.len() - i,
    {
        let core_share = base64_encode(cores[i].core_share.as_slice());
        let aux_info = aux_infos[i].clone();
        shares.push(DkgShare { core_share, aux_info });
        i += 1;
    }
    let public_key = hex_encode(cores[0].public_key.as_slice());
    DkgOutput { shares, public_key }
}

/// What party `i` finished a phase with, when its protocol succeeded.
pub open spec fn party_output<M, T>(log: SimLog<M, Result<T, String>>, i: int) -> T {
    final_output(log.steps[i])->Some_0->Ok_0
}

/// A record with no steps, for a ceremony that stopped before a phase.
pub open spec fn no_log<M, O>() -> SimLog<M, O> {
    SimLog { steps: Seq::empty(), sends: Seq::empty(), turns: Seq::empty() }
}

/// What both phases of a ceremony did.
pub struct DkgLog<MA, MB> {
    pub aux: SimLog<MA, Result<Vec<u8>, String>>,
    pub keygen: SimLog<MB, Result<KeygenOutput, String>>,
}

/// Runs one phase and collects every party's output, in party order.
fn phase<M, T, P: PartyDriver<M, Result<T, String>>>(parties: Vec<P>, which: Phase) -> (r: (
    Result<Vec<T>, DkgError>,
    Ghost<SimLog<M, Result<T, String>>>,
))
    requires
        parties@.len() <= u16::MAX,
    ensures
        r.0 matches Ok(v) ==> v@.len() == parties@.len() && forall|i: int|
            0 <= i < v@.len() ==> final_output(r.1@.steps[i]) == Some(Ok::<T, String>(#[trigger] v@[i])),
        r.0 matches Err(DkgError::PartyFailed { phase, party, reason }) ==> phase == which && party
            < parties@.len() && final_output(r.1@.steps[party as int]) == Some(Err::<T, String>(reason)),
        r.0 matches Err(DkgError::Simulation { phase, .. }) ==> phase == which,
        r.0 is Err ==> r.0->Err_0 is Simulation || r.0->Err_0 is PartyFailed,
{
    let (res, Ghost(log)) = run(parties);
    let results = match res {
        Ok(v) => v,
        Err(error) => {
            return (Err(DkgError::Simulation { phase: which, error }), Ghost(log));
        },
    };
    match collect_party_results(results) {
        Ok(v) => (Ok(v), Ghost(log)),
        Err((party, reason)) => (Err(DkgError::PartyFailed { phase: which, party, reason }), Ghost(log)),
    }
}

/// Runs the keygen phase; the key that party 0 reports must be compressed.
fn keygen_phase<M, P: PartyDriver<M, Result<KeygenOutput, String>>>(parties: Vec<P>) -> (r: (
    Result<Vec<KeygenOutput>, DkgError>,
    Ghost<SimLog<M, Result<KeygenOutput, String>>>,
))
    requires
        2 <= parties@.len() <= u16::MAX,
    ensures
        r.0 matches Ok(v) ==> v@.len() == parties@.len() && v@[0].public_key@.len() == PUBLIC_KEY_LEN
            && forall|i: int|
            0 <= i < v@.len() ==> final_output(r.1@.steps[i]) == Some(Ok::<KeygenOutput, String>(#[trigger] v@[i])),
        r.0 is Err ==> r.0->Err_0 is Simulation || r.0->Err_0 is PartyFailed || r.0->Err_0 is BadPublicKey,
{
    let (res, log) = phase(parties, Phase::Keygen);
    let cores = match res {
        Ok(v) => v,
        Err(e) => {
            return (Err(e), log);
        },
    };
    if cores[0].public_key.len() != PUBLIC_KEY_LEN {
        return (Err(DkgError::BadPublicKey { len: cores[0].public_key.len() }), log);
    }
    (Ok(cores), log)
}

/// A full ceremony for `n` parties: the auxiliary info phase, then the keygen
/// phase with the given threshold. Share `i` holds the base64 of what party
/// `i` finished each phase with; the public key is the hex of the 33-byte key
/// that party 0 reports.
pub fn run_dkg<MA, PA, MB, PB>(
    n: u16,
    threshold: u16,
    aux_parties: Vec<PA>,
    keygen_parties: Vec<PB>,
) -> (r: (Result<DkgOutput, DkgError>, Ghost<DkgLog<MA, MB>>)) where
    PA: PartyDriver<MA, Result<Vec<u8>, String>>,
    PB: PartyDriver<MB, Result<KeygenOutput, String>>,

    requires
        aux_parties@.len() == n,
        keygen_parties@.len() == n,
    ensures
        ({
            let (res, log) = r;
            &&& (res is Err && res->Err_0 is TooFewParties) <==> n < 2
            &&& (res is Err && res->Err_0 is BadThreshold) <==> 2 <= n && !(2 <= threshold <= n)
            &&& res matches Err(DkgError::TooFewParties { n: m }) ==> m == n
            &&& res matches Err(DkgError::BadThreshold { n: m, threshold: t }) ==> m == n && t == threshold
            &&& res is Err ==> res->Err_0 is TooFewParties || res->Err_0 is BadThreshold || res->Err_0 is Simulation
                || res->Err_0 is PartyFailed || res->Err_0 is BadPublicKey
            &&& !valid_params(n, threshold) ==> log@ == (DkgLog::<MA, MB> { aux: no_log(), keygen: no_log() })
            &&& res matches Ok(out) ==> {
                &&& valid_params(n, threshold)
                &&& out.shares@.len() == n
                &&& forall|i: int|
                    0 <= i < n ==> (#[trigger] out.shares@[i]).core_share@ == base64_text(
                        party_output(log@.keygen, i).core_share@,
                    ) && out.shares@[i].aux_info@ == base64_text(party_output(log@.aux, i)@)
                &&& party_output(log@.keygen, 0).public_key@.len() == PUBLIC_KEY_LEN
                &&& out.public_key@ == hex_text(party_output(log@.keygen, 0).public_key@)
            }
        }),
{
    match check_params(n, threshold) {
        Ok(()) => {},
        Err(e) => {
            return (Err(e), Ghost(DkgLog { aux: no_log(), keygen: no_log() }));
        },
    }
    let (aux_res, Ghost(aux_log)) = phase(aux_parties, Phase::AuxInfo);
    let aux_infos = match aux_res {
        Ok(v) => v,
        Err(e) => {
            return (Err(e), Ghost(DkgLog { aux: aux_log, keygen: no_log() }));
        },
    };
    let (kg_res, Ghost(kg_log)) = keygen_phase(keygen_parties);
    let cores = match kg_res {
        Ok(v) => v,
        Err(e) => {
            return (Err(e), Ghost(DkgLog { aux: aux_log, keygen: kg_log }));
        },
    };
    let aux_texts = encode_all(aux_infos.as_slice());
    let out = assemble_dkg_output(cores.as_slice(), aux_texts.as_slice());
    proof {
        assert forall|i: int| 0 <= i < n implies (#[trigger] out.shares@[i]).core_share@ == base64_text(
            party_output(kg_log, i).core_share@,
        ) && out.shares@[i].aux_info@ == base64_text(party_output(aux_log, i)@) by {
            assert(final_output(kg_log.steps[i]) == Some(Ok::<KeygenOutput, String>(cores@[i])));
            assert(final_output(aux_log.steps[i]) == Some(Ok::<Vec<u8>, String>(aux_infos@[i])));
        }
        assert(final_output(kg_log.steps[0]) == Some(Ok::<KeygenOutput, String>(cores@[0])));
    }
    (Ok(out), Ghost(DkgLog { aux: aux_log, keygen: kg_log }))
}

/// A ceremony whose auxiliary info was generated ahead of time: only the
/// keygen phase runs, and each party's cached auxiliary info text is passed
/// through as it is.
pub fn run_dkg_with_aux<MB, PB>(
    n: u16,
    threshold: u16,
    keygen_parties: Vec<PB>,
    aux: &AuxInfoOutput,
) -> (r: (Result<DkgOutput, DkgError>, Ghost<SimLog<MB, Result<KeygenOutput, String>>>)) where
    PB: PartyDriver<MB, Result<KeygenOutput, String>>,

    requires
        keygen_parties@.len() == n,
    ensures
        ({
            let (res, log) = r;
            &&& (res is Err && res->Err_0 is TooFewParties) <==> n < 2
            &&& (res is Err && res->Err_0 is BadThreshold) <==> 2 <= n && !(2 <= threshold <= n)
            &&& res matches Err(DkgError::TooFewParties { n: m }) ==> m == n
            &&& res matches Err(DkgError::BadThreshold { n: m, threshold: t }) ==> m == n && t == threshold
            &&& (res is Err && res->Err_0 is NotEnoughAuxInfo) <==> valid_params(n, threshold) && !covers(aux, n)
            &&& res matches Err(DkgError::NotEnoughAuxInfo { need, got }) ==> need == n && got
                == aux.aux_infos@.len()
            &&& res matches Err(DkgError::BadAuxInfo { index }) ==> index < n && !is_base64(
                aux.aux_infos@[index as int]@,
            )
            &&& (!valid_params(n, threshold) || res is Err && (res->Err_0 is NotEnoughAuxInfo
                || res->Err_0 is BadAuxInfo)) ==> log@ == no_log::<MB, Result<KeygenOutput, String>>()
            &&& res matches Ok(out) ==> {
                &&& valid_params(n, threshold)
                &&& covers(aux, n)
                &&& out.shares@.len() == n
                &&& forall|i: int|
                    0 <= i < n ==> (#[trigger] out.shares@[i]).core_share@ == base64_text(
                        party_output(log@, i).core_share@,
                    ) && out.shares@[i].aux_info@ == aux.aux_infos@[i]@
                &&& party_output(log@, 0).public_key@.len() == PUBLIC_KEY_LEN
                &&& out.public_key@ == hex_text(party_output(log@, 0).public_key@)
            }
        }),
{
    match check_params(n, threshold) {
        Ok(()) => {},
        Err(e) => {
            return (Err(e), Ghost(no_log()));
        },
    }
    match select_aux_infos(aux, n) {
        Ok(_) => {},
        Err(e) => {
            proof {
                if e is BadAuxInfo {
                    let index = e->BadAuxInfo_index;
                    assert(forall|b: Seq<u8>| #[trigger] base64_text(b) != aux.aux_infos@[index as int]@);
                }
            }
            return (Err(e), Ghost(no_log()));
        },
    }
    let (kg_res, Ghost(kg_log)) = keygen_phase(keygen_parties);
    let cores = match kg_res {
        Ok(v) => v,
        Err(e) => {
            return (Err(e), Ghost(kg_log));
        },
    };
    let mut texts: Vec<String> = Vec::new();
    let mut i: usize = 0;
    while i < n as usize
        invariant
            i <= n <= aux.aux_infos@.len(),
            texts@.len() == i,
            forall|k: int| 0 <= k < i ==> (#[trigger] texts@[k])@ == aux.aux_infos@[k]@,
        decreases n - i,
    {
        texts.push(aux.aux_infos[i].clone());
        i += 1;
    }
    let out = assemble_dkg_output(cores.as_slice(), texts.as_slice());
    proof {
        assert forall|i: int| 0 <= i < n implies (#[trigger] out.shares@[i]).core_share@ == base64_text(
            party_output(kg_log, i).core_share@,
        ) && out.shares@[i].aux_info@ == aux.aux_infos@[i]@ by {
            assert(final_output(kg_log.steps[i]) == Some(Ok::<KeygenOutput, String>(cores@[i])));
        }
        assert(final_output(kg_log.steps[0]) == Some(Ok::<KeygenOutput, String>(cores@[0])));
    }
    (Ok(out), Ghost(kg_log))
}

/// Runs only the auxiliary info phase for `n` parties; record `i` is the
/// base64 of what party `i` finished with.
pub fn gen_aux_info<MA, PA>(n: u16, aux_parties: Vec<PA>) -> (r: (
    Result<AuxInfoOutput, DkgError>,
    Ghost<SimLog<MA, Result<Vec<u8>, String>>>,
)) where PA: PartyDriver<MA, Result<Vec<u8>, String>>
    requires
        aux_parties@.len() == n,
    ensures
        r.0 matches Ok(out) ==> out.n == n && out.aux_infos@.len() == n && forall|i: int|
            0 <= i < n ==> (#[trigger] out.aux_infos@[i])@ == base64_text(party_output(r.1@, i)@),
        r.0 is Err ==> r.0->Err_0 is Simulation || r.0->Err_0 is PartyFailed,
{
    let (res, Ghost(log)) = phase(aux_parties, Phase::AuxInfo);
    let aux_infos = match res {
        Ok(v) => v,
        Err(e) => {
            return (Err(e), Ghost(log));
        },
    };
    let texts = encode_all(aux_infos.as_slice());
    proof {
        assert forall|i: int| 0 <= i < n implies (#[trigger] texts@[i])@ == base64_text(party_output(log, i)@) by {
            assert(final_output(log.steps[i]) == Some(Ok::<Vec<u8>, String>(aux_infos@[i])));
        }
    }
    (Ok(AuxInfoOutput { aux_infos: texts, n }), Ghost(log))
}

} // verus!
