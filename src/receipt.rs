use vstd::prelude::*;
use vstd::utf8::{encode_utf8, valid_utf8};
use crate::digest::{
    keccak256, keccak_of, personal_hash_keccak, personal_digest, recover_address, signer_of,
    receipt_hash, receipt_hash_sha256,
};
use crate::encoding::{decode_hex, encode_hex, hex_decodable, hex_decoded, hex_lower, normalize_hex_even, normalized_hex};
use crate::json::{
    Json, JsonValue, canonical_bytes, signed_canonical_bytes, signed_payload,
};
use crate::prover::{PublicInputs, Witness, opt_view};

verus! {

/// Why a receipt was not accepted.
#[derive(Debug, Clone, PartialEq, Eq)]
pub enum VerifyError {
    Hex(String),
    Serde(String),
    Sig(String),
    AddressMismatch,
    PolicyConsentMismatch,
    GatewayParse(String),
    Prover(String),
}

/// The kind of a failure, without its message.
#[derive(PartialEq, Eq, Structural)]
pub enum Failure {
    Hex,
    Serde,
    Sig,
    AddressMismatch,
    PolicyConsentMismatch,
    GatewayParse,
    Prover,
}

pub open spec fn failure_of(e: VerifyError) -> Failure {
    match e {
        VerifyError::Hex(_) => Failure::Hex,
        VerifyError::Serde(_) => Failure::Serde,
        VerifyError::Sig(_) => Failure::Sig,
        VerifyError::AddressMismatch => Failure::AddressMismatch,
        VerifyError::PolicyConsentMismatch => Failure::PolicyConsentMismatch,
        VerifyError::GatewayParse(_) => Failure::GatewayParse,
        VerifyError::Prover(_) => Failure::Prover,
    }
}

/// A receipt document.
#[derive(Debug)]
pub struct Receipt {
    pub rest: JsonValue,
}

/// The value of the first entry named `key`.
pub open spec fn lookup(es: Seq<(Seq<char>, Json)>, key: Seq<char>) -> Option<Json>
    decreases es.len(),
{
    if es.len() == 0 {
        None
    } else if es[0].0 == key {
        Some(es[0].1)
    } else {
        lookup(es.drop_first(), key)
    }
}

/// The member `key` of an object; nothing for other values.
pub open spec fn member(j: Json, key: Seq<char>) -> Option<Json> {
    match j {
        Json::Object(es) => lookup(es, key),
        _ => None,
    }
}

/// The text of a string value; nothing for other values.
pub open spec fn text_of(o: Option<Json>) -> Option<Seq<char>> {
    match o {
        Some(Json::Str(s)) => Some(s),
        _ => None,
    }
}

pub open spec fn text_or_empty(o: Option<Seq<char>>) -> Seq<char> {
    match o {
        Some(s) => s,
        None => Seq::empty(),
    }
}

pub open spec fn policy_of(j: Json) -> Option<Seq<char>> {
    text_of(member(j, "policy_hash"@))
}

pub open spec fn consent_of(j: Json) -> Option<Seq<char>> {
    text_of(member(j, "consent_snapshot_hash"@))
}

pub open spec fn receipt_id_of(j: Json) -> Option<Seq<char>> {
    text_of(member(j, "receipt_id"@))
}

/// The anchoring transaction hash at `anchor.l2_tx.tx_hash`.
pub open spec fn anchor_tx_of(j: Json) -> Option<Seq<char>> {
    match member(j, "anchor"@) {
        Some(a) => match member(a, "l2_tx"@) {
            Some(l) => text_of(member(l, "tx_hash"@)),
            None => None,
        },
        None => None,
    }
}

/// The digest a gateway signs: the personal-message digest of the Keccak-256
/// digest of the canonical signed payload.
pub open spec fn signing_digest(j: Json) -> Seq<u8> {
    personal_digest(keccak_of(canonical_bytes(signed_payload(j))))
}

/// What verifying a receipt yields: its receipt hash and its signer, or the
/// kind of the first check that failed.
pub open spec fn verify_outcome(
    j: Json,
    sig: Seq<char>,
    gateway: Option<Seq<u8>>,
    policy: Seq<char>,
    consent: Seq<char>,
) -> Result<(Seq<char>, Seq<u8>), Failure> {
    match signer_of(sig, signing_digest(j)) {
        None => Err(Failure::Sig),
        Some(a) => if gateway is Some && gateway->Some_0 != a {
            Err(Failure::AddressMismatch)
        } else if policy_of(j) != Some(policy) || consent_of(j) != Some(consent) {
            Err(Failure::PolicyConsentMismatch)
        } else {
            Ok((receipt_hash(j), a))
        },
    }
}

pub open spec fn verify_result_view(r: Result<(String, [u8; 20]), VerifyError>) -> Result<
    (Seq<char>, Seq<u8>),
    Failure,
> {
    match r {
        Ok((h, a)) => Ok((h@, a@)),
        Err(e) => Err(failure_of(e)),
    }
}

fn find_member<'a>(v: &'a JsonValue, key: &String) -> (r: Option<&'a JsonValue>)
    ensures
        match r {
            Some(x) => member(v@, key@) == Some(x@),
            None => member(v@, key@) is None,
        },
{
    match v {
        JsonValue::Object(es) => {
            let ghost all = crate::json::view_entries(es@);
            proof {
                crate::json::lemma_view_entries(es@);
            }
            assert(all.subrange(0, all.len() as int) =~= all);
            let mut i: usize = 0;
            while i < es.len()
                invariant
                    *v == JsonValue::Object(*es),
                    all == crate::json::view_entries(es@),
                    all.len() == es@.len(),
                    forall|j: int| 0 <= j < es@.len() ==> #[trigger] all[j] == (es@[j].0@, es@[j].1@),
                    i <= es@.len(),
                    lookup(all, key@) == lookup(all.subrange(i as int, all.len() as int), key@),
                decreases es.len() - i,
            {
                let t = Ghost(all.subrange(i as int, all.len() as int));
                assert(t@[0] == all[i as int]);
                if es[i].0 == *key {
                    return Some(&es[i].1);
                }
                assert(t@.drop_first() =~= all.subrange(i + 1, all.len() as int));
                i = i + 1;
            }
            None
        },
        _ => None,
    }
}

fn text_member(v: &JsonValue, key: &str) -> (r: Option<String>)
    ensures
        match r {
            Some(s) => text_of(member(v@, key@)) == Some(s@),
            None => text_of(member(v@, key@)) is None,
        },
{
    let k = key.to_owned();
    match find_member(v, &k) {
        Some(JsonValue::Str(s)) => Some(s.clone()),
        _ => None,
    }
}

fn same_address(a: &[u8; 20], b: &[u8; 20]) -> (r: bool)
    ensures
        r == (a@ == b@),
{
    let mut i: usize = 0;
    while i < 20
        invariant
            i <= 20,
            a@.len() == 20,
            b@.len() == 20,
            forall|j: int| 0 <= j < i ==> a@[j] == b@[j],
        decreases 20 - i,
    {
        if a[i] != b[i] {
            return false;
        }
        i = i + 1;
    }
    assert(a@ =~= b@);
    true
}

/// The checks that follow signer recovery: the recovered address against the
/// expected gateway, if one is given, then the receipt's policy and consent
/// hashes against the expected ones.
pub fn check_recovered(
    receipt_val: &JsonValue,
    addr: &[u8; 20],
    expected_gateway: Option<[u8; 20]>,
    expected_policy_hash: &str,
    expected_consent_hash: &str,
) -> (r: Result<(), VerifyError>)
    ensures
        match expected_gateway {
            Some(g) if g@ != addr@ => r == Err::<(), VerifyError>(VerifyError::AddressMismatch),
            _ => if policy_of(receipt_val@) == Some(expected_policy_hash@) && consent_of(
                receipt_val@,
            ) == Some(expected_consent_hash@) {
                r is Ok
            } else {
                r == Err::<(), VerifyError>(VerifyError::PolicyConsentMismatch)
            },
        },
{
    if let Some(exp) = expected_gateway {
        if !same_address(addr, &exp) {
            return Err(VerifyError::AddressMismatch);
        }
    }
    let policy = text_member(receipt_val, "policy_hash");
    let consent = text_member(receipt_val, "consent_snapshot_hash");
    let want_policy = expected_policy_hash.to_owned();
    let want_consent = expected_consent_hash.to_owned();
    let policy_ok = match &policy {
        Some(p) => *p == want_policy,
        None => false,
    };
    let consent_ok = match &consent {
        Some(c) => *c == want_consent,
        None => false,
    };
    if !(policy_ok && consent_ok) {
        return Err(VerifyError::PolicyConsentMismatch);
    }
    Ok(())
}

/// Verifies the receipt's signature and its policy and consent hashes against
/// expected values; on success returns the receipt hash and the signer.
pub fn verify_receipt(
    receipt_val: &JsonValue,
    receipt_sig_hex: &str,
    expected_gateway: Option<[u8; 20]>,
    expected_policy_hash: &str,
    expected_consent_hash: &str,
) -> (r: Result<(String, [u8; 20]), VerifyError>)
    ensures
        verify_result_view(r) == verify_outcome(
            receipt_val@,
            receipt_sig_hex@,
            match expected_gateway {
                Some(g) => Some(g@),
                None => None,
            },
            expected_policy_hash@,
            expected_consent_hash@,
        ),
{
    let signed = signed_canonical_bytes(receipt_val);
    let digest_bytes = keccak256(signed.as_slice());
    let digest = personal_hash_keccak(digest_bytes.as_slice());
    let addr = recover_address(receipt_sig_hex, digest)?;
    check_recovered(
        receipt_val,
        &addr,
        expected_gateway,
        expected_policy_hash,
        expected_consent_hash,
    )?;
    let rcpt_hash = receipt_hash_sha256(receipt_val);
    Ok((rcpt_hash, addr))
}

/// The gateway address that hex text names: 20 bytes as they stand, or 32
/// bytes of which the first 12 are padding.
pub open spec fn gateway_of(s: Seq<char>) -> Option<Seq<u8>> {
    let h = normalized_hex(s);
    let b = hex_decoded(h);
    if !hex_decodable(h) {
        None
    } else if b.len() == 32 {
        Some(b.subrange(12, 32))
    } else if b.len() == 20 {
        Some(b)
    } else {
        None
    }
}

/// Parses a gateway address: hex, optionally `0x`-prefixed, of 20 bytes or of
/// 32 bytes whose first 12 are dropped.
pub fn parse_gateway(gw: &str) -> (r: Result<[u8; 20], VerifyError>)
    ensures
        match r {
            Ok(a) => gateway_of(gw@) == Some(a@),
            Err(e) => gateway_of(gw@) is None && e is GatewayParse,
        },
{
    let clean = normalize_hex_even(gw);
    let gb = match decode_hex(clean.as_str()) {
        Ok(b) => b,
        Err(msg) => {
            return Err(VerifyError::GatewayParse(msg));
        },
    };
    let start: usize = if gb.len() == 32 {
        12
    } else {
        0
    };
    if gb.len() - start != 20 {
        return Err(VerifyError::GatewayParse(String::from_str("gateway must be 20 bytes (or 32 felt)")));
    }
    let mut addr = [0u8; 20];
    let mut i: usize = 0;
    while i < 20
        invariant
            i <= 20,
            gb@.len() == start + 20,
            start <= 12,
            addr@.len() == 20,
            forall|j: int| 0 <= j < i ==> addr@[j] == gb@[j + start],
        decreases 20 - i,
    {
        addr[i] = gb[i + start];
        i = i + 1;
    }
    assert(addr@ =~= gb@.subrange(start as int, start + 20));
    proof {
        if start == 0 {
            assert(gb@.subrange(0, 20) =~= gb@);
        }
    }
    Ok(addr)
}

/// Relies on String::from_utf8: the bytes become a `String` exactly when they
/// are valid UTF-8, and then it holds the characters they encode.
#[verifier::external_body]
fn utf8_text(b: Vec<u8>) -> (r: Result<String, String>)
    ensures
        r is Ok <==> valid_utf8(b@),
        r is Ok ==> encode_utf8(r->Ok_0@) == b@,
{
    match String::from_utf8(b) {
        Ok(s) => Ok(s),
        Err(e) => Err(e.to_string()),
    }
}

/// The note that public inputs carry.
pub open spec fn note_text() -> Seq<char> {
    "Use these as public signals; feed canonical_receipt + sig as witness"@
}

/// The public inputs built for a verified receipt with hash `hash` and signer `addr`.
pub open spec fn inputs_of(p: PublicInputs, j: Json, hash: Seq<char>, addr: Seq<u8>) -> bool {
    &&& p.receipt_hash@ == "0x"@ + hash
    &&& p.policy_hash@ == text_or_empty(policy_of(j))
    &&& p.consent_hash@ == text_or_empty(consent_of(j))
    &&& p.gateway_address@ == "0x"@ + hex_lower(addr)
    &&& opt_view(p.note) == Some(note_text())
}

/// The witness built for a verified receipt: its canonical text is that of
/// the signed payload, the text whose digest the signature covers.
pub open spec fn witness_of(w: Witness, j: Json, sig: Seq<char>) -> bool {
    &&& encode_utf8(w.canonical_receipt@) == canonical_bytes(signed_payload(j))
    &&& w.signature_hex@ == sig
    &&& opt_view(w.receipt_id) == receipt_id_of(j)
    &&& opt_view(w.anchor_tx_hash) == anchor_tx_of(j)
}

/// The gateway a build call checks against: none for `None`, else the parsed one.
pub open spec fn expected_gateway_of(gateway_hex: Option<&str>) -> Option<Seq<u8>> {
    match gateway_hex {
        Some(g) => gateway_of(g@),
        None => None,
    }
}

/// Verifies a receipt against its own policy and consent hashes and the
/// gateway, if one is given, and builds its public inputs and witness.
pub fn build_public_and_witness(
    receipt_val: &JsonValue,
    signature_hex: &str,
    gateway_hex: Option<&str>,
) -> (r: Result<(PublicInputs, Witness), VerifyError>)
    ensures
        ({
            let o = verify_outcome(
                receipt_val@,
                signature_hex@,
                expected_gateway_of(gateway_hex),
                text_or_empty(policy_of(receipt_val@)),
                text_or_empty(consent_of(receipt_val@)),
            );
            if gateway_hex is Some && expected_gateway_of(gateway_hex) is None {
                r is Err && r->Err_0 is GatewayParse
            } else if o is Err {
                r is Err && failure_of(r->Err_0) == o->Err_0
            } else {
                &&& r is Ok
                &&& inputs_of(r->Ok_0.0, receipt_val@, o->Ok_0.0, o->Ok_0.1)
                &&& witness_of(r->Ok_0.1, receipt_val@, signature_hex@)
            }
        }),
{
    let expected_gateway = match gateway_hex {
        Some(gw) => Some(parse_gateway(gw)?),
        None => None,
    };
    let policy = match text_member(receipt_val, "policy_hash") {
        Some(p) => p,
        None => String::new(),
    };
    let consent = match text_member(receipt_val, "consent_snapshot_hash") {
        Some(c) => c,
        None => String::new(),
    };
    let (rcpt_hash, addr) = verify_receipt(
        receipt_val,
        signature_hex,
        expected_gateway,
        policy.as_str(),
        consent.as_str(),
    )?;
    proof {
        crate::json::lemma_ser_valid_utf8(crate::json::canon(signed_payload(receipt_val@)));
    }
    let canon_str = match utf8_text(signed_canonical_bytes(receipt_val)) {
        Ok(t) => t,
        Err(msg) => {
            return Err(VerifyError::Serde(msg));
        },
    };
    let hash_text = String::from_str("0x").concat(rcpt_hash.as_str());
    let addr_text = String::from_str("0x").concat(encode_hex(addr.as_slice()).as_str());
    let pub_inputs = PublicInputs {
        receipt_hash: hash_text,
        policy_hash: policy,
        consent_hash: consent,
        gateway_address: addr_text,
        note: Some(
            String::from_str("Use these as public signals; feed canonical_receipt + sig as witness"),
        ),
    };
    let anchor_key = String::from_str("anchor");
    let l2_key = String::from_str("l2_tx");
    let anchor_tx_hash = match find_member(receipt_val, &anchor_key) {
        Some(a) => match find_member(a, &l2_key) {
            Some(l) => text_member(l, "tx_hash"),
            None => None,
        },
        None => None,
    };
    let witness = Witness {
        canonical_receipt: canon_str,
        signature_hex: signature_hex.to_owned(),
        receipt_id: text_member(receipt_val, "receipt_id"),
        anchor_tx_hash,
    };
    Ok((pub_inputs, witness))
}


/// Verification succeeds only where the receipt's policy and consent hashes
/// equal the expected ones exactly; a receipt lacking either never verifies,
/// and one with a good signature and a differing hash fails on that mismatch.
pub proof fn lemma_policy_consent_exact(
    j: Json,
    sig: Seq<char>,
    gateway: Option<Seq<u8>>,
    policy: Seq<char>,
    consent: Seq<char>,
)
    ensures
        verify_outcome(j, sig, gateway, policy, consent) is Ok ==> policy_of(j) == Some(policy)
            && consent_of(j) == Some(consent),
        policy_of(j) is None || consent_of(j) is None ==> !(verify_outcome(
            j,
            sig,
            gateway,
            policy,
            consent,
        ) is Ok),
        signer_of(sig, signing_digest(j)) is Some && (gateway is None || gateway == signer_of(
            sig,
            signing_digest(j),
        )) && (policy_of(j) != Some(policy) || consent_of(j) != Some(consent))
            ==> verify_outcome(j, sig, gateway, policy, consent) == Err::<
            (Seq<char>, Seq<u8>),
            Failure,
        >(Failure::PolicyConsentMismatch),
{
}

/// With no expected gateway every recovered signer is accepted, while the
/// policy and consent hashes are still checked.
pub proof fn lemma_any_signer(j: Json, sig: Seq<char>, policy: Seq<char>, consent: Seq<char>)
    ensures
        verify_outcome(j, sig, None, policy, consent) != Err::<(Seq<char>, Seq<u8>), Failure>(
            Failure::AddressMismatch,
        ),
        signer_of(sig, signing_digest(j)) is Some ==> verify_outcome(j, sig, None, policy, consent)
            == if policy_of(j) == Some(policy) && consent_of(j) == Some(consent) {
            Ok::<(Seq<char>, Seq<u8>), Failure>(
                (receipt_hash(j), signer_of(sig, signing_digest(j))->Some_0),
            )
        } else {
            Err::<(Seq<char>, Seq<u8>), Failure>(Failure::PolicyConsentMismatch)
        },
{
}

/// A signature that decodes to other than 65 bytes fails as a signature error.
pub proof fn lemma_bad_signature_length(
    j: Json,
    sig: Seq<char>,
    gateway: Option<Seq<u8>>,
    policy: Seq<char>,
    consent: Seq<char>,
)
    requires
        hex_decodable(normalized_hex(sig)),
        hex_decoded(normalized_hex(sig)).len() != 65,
    ensures
        verify_outcome(j, sig, gateway, policy, consent) == Err::<(Seq<char>, Seq<u8>), Failure>(
            Failure::Sig,
        ),
{
}

/// A gateway of 32 bytes names the address in its last 20; one of any length
/// but 20 and 32 (31, say) is refused.
pub proof fn lemma_gateway_widths(s: Seq<char>)
    ensures
        hex_decodable(normalized_hex(s)) && hex_decoded(normalized_hex(s)).len() == 32
            ==> gateway_of(s) == Some(hex_decoded(normalized_hex(s)).subrange(12, 32)),
        hex_decoded(normalized_hex(s)).len() != 20 && hex_decoded(normalized_hex(s)).len() != 32
            ==> gateway_of(s) is None,
{
}

/// An address written as 32 bytes, 12 zero bytes before it, names that
/// address, as does the address written alone; 31 bytes name none.
pub proof fn lemma_padded_gateway(addr: Seq<u8>, short: Seq<u8>)
    requires
        addr.len() == 20,
        short.len() == 31,
    ensures
        gateway_of(hex_lower(Seq::new(12, |i: int| 0u8) + addr)) == Some(addr),
        gateway_of(hex_lower(addr)) == Some(addr),
        gateway_of(hex_lower(short)) is None,
{
    let padded = Seq::new(12, |i: int| 0u8) + addr;
    crate::encoding::lemma_hex_round_trip(padded);
    crate::encoding::lemma_hex_round_trip(addr);
    crate::encoding::lemma_hex_round_trip(short);
    assert(padded.subrange(12, 32) =~= addr);
}

/// Where keys are distinct, the member found under a key is the one entry
/// with that key, so which of several equal keys wins never arises.
pub proof fn lemma_lookup_unique(es: Seq<(Seq<char>, Json)>, key: Seq<char>, v: Json)
    requires
        crate::json::unique_keys(es),
    ensures
        lookup(es, key) == Some(v) <==> es.contains((key, v)),
    decreases es.len(),
{
    if es.len() > 0 {
        let t = es.drop_first();
        assert(crate::json::unique_keys(t)) by {
            assert forall|p: int, q: int| 0 <= p < t.len() && 0 <= q < t.len() && p != q implies #[trigger] t[p].0 != #[trigger] t[q].0 by {
                assert(t[p] == es[p + 1] && t[q] == es[q + 1]);
            }
        }
        lemma_lookup_unique(t, key, v);
        if es.contains((key, v)) {
            let i = choose|i: int| 0 <= i < es.len() && es[i] == (key, v);
            if i > 0 {
                assert(t[i - 1] == (key, v));
                if es[0].0 == key {
                    assert(es[0].0 == es[i].0);
                }
            }
        }
        if t.contains((key, v)) {
            let i = choose|i: int| 0 <= i < t.len() && t[i] == (key, v);
            assert(es[i + 1] == (key, v));
        }
        if lookup(es, key) == Some(v) && es[0].0 == key {
            assert(es[0] == (key, v));
        }
    }
}

} // verus!
