use k256::ecdsa::SigningKey;
use receipt_verifier::{
    build_public_and_witness, canonical_json, check_recovered, canonical_json_bytes, keccak256, mock_prove,
    normalize_hex_even, parse_gateway, personal_hash_keccak, prove_with_fallback,
    prover_command, receipt_hash_sha256, recover_address, split_words, signed_canonical_bytes, verify_receipt, JsonValue,
    PublicInputs, VerifyError, Witness,
};

fn num(t: &str) -> JsonValue {
    JsonValue::Number(t.to_string())
}

fn text(t: &str) -> JsonValue {
    JsonValue::Str(t.to_string())
}

fn obj(entries: Vec<(&str, JsonValue)>) -> JsonValue {
    JsonValue::Object(entries.into_iter().map(|(k, v)| (k.to_string(), v)).collect())
}

fn canonical_text(v: &JsonValue) -> String {
    String::from_utf8(canonical_json_bytes(v)).unwrap()
}

fn to_hex(b: &[u8]) -> String {
    b.iter().map(|x| format!("{:02x}", x)).collect()
}

// The well-known key 0x00..01 and its address.
fn signer() -> SigningKey {
    let mut k = [0u8; 32];
    k[31] = 1;
    SigningKey::from_slice(&k).unwrap()
}

const SIGNER_ADDRESS: &str = "7e5f4552091a69125d5dfcb7b8c2659029395bdf";

fn signing_digest(v: &JsonValue) -> [u8; 32] {
    let inner = keccak256(&signed_canonical_bytes(v));
    personal_hash_keccak(&inner)
}

fn sign(v: &JsonValue) -> String {
    let (sig, rec) = signer().sign_prehash_recoverable(&signing_digest(v)).unwrap();
    format!("0x{}{:02x}", to_hex(&sig.to_bytes()), 27 + rec.to_byte())
}

fn sample_receipt() -> JsonValue {
    obj(vec![
        ("b", num("1")),
        ("a", num("2")),
        ("policy_hash", text("ph")),
        ("consent_snapshot_hash", text("ch")),
    ])
}

fn address_bytes() -> [u8; 20] {
    let b = hex::decode(SIGNER_ADDRESS).unwrap();
    let mut a = [0u8; 20];
    a.copy_from_slice(&b);
    a
}

#[test]
fn canonical_text_sorts_keys_compactly() {
    let v = obj(vec![("b", num("1")), ("a", num("2"))]);
    assert_eq!(canonical_text(&v), "{\"a\":2,\"b\":1}");
}

#[test]
fn canonical_text_sorts_nested_and_keeps_array_order() {
    let v = obj(vec![
        ("z", JsonValue::Array(vec![obj(vec![("y", JsonValue::Null), ("x", JsonValue::Bool(true))]), num("3")])),
        ("m", obj(vec![("q", JsonValue::Bool(false)), ("p", text("s"))])),
    ]);
    assert_eq!(
        canonical_text(&v),
        "{\"m\":{\"p\":\"s\",\"q\":false},\"z\":[{\"x\":true,\"y\":null},3]}"
    );
}

#[test]
fn canonical_text_orders_keys_by_bytes() {
    let v = obj(vec![("b", num("1")), ("B", num("2")), ("é", num("3")), ("a", num("4"))]);
    assert_eq!(canonical_text(&v), "{\"B\":2,\"a\":4,\"b\":1,\"é\":3}");
}

#[test]
fn canonical_text_escapes_strings() {
    let v = text("a\"b\\c\nd\u{1}e/");
    assert_eq!(canonical_text(&v), "\"a\\\"b\\\\c\\nd\\u0001e/\"");
}

#[test]
fn canonicalize_is_idempotent() {
    let v = obj(vec![("b", obj(vec![("d", num("1")), ("c", num("2"))])), ("a", num("0"))]);
    let once = canonical_json(&v);
    let twice = canonical_json(&once);
    assert_eq!(canonical_text(&once), canonical_text(&twice));
    assert_eq!(canonical_text(&once), canonical_text(&v));
}

#[test]
fn key_order_does_not_change_text_or_hash() {
    let a = obj(vec![("x", obj(vec![("q", num("1")), ("p", num("2"))])), ("w", num("3"))]);
    let b = obj(vec![("w", num("3")), ("x", obj(vec![("p", num("2")), ("q", num("1"))]))]);
    assert_eq!(canonical_text(&a), canonical_text(&b));
    assert_eq!(receipt_hash_sha256(&a), receipt_hash_sha256(&b));
}

#[test]
fn receipt_hash_fixed_vectors() {
    let v = obj(vec![("b", num("1")), ("a", num("2"))]);
    assert_eq!(receipt_hash_sha256(&v).len(), 64);
    assert_eq!(
        receipt_hash_sha256(&v),
        "d3626ac30a87e6f7a6428233b3c68299976865fa5508e4267c5415c76af7a772"
    );
    assert_eq!(
        receipt_hash_sha256(&sample_receipt()),
        "e99e7477cc09d908682fbc7d5741ab37889e931dccf59329f8f58228c962522a"
    );
    let other = obj(vec![("b", num("1")), ("a", num("3"))]);
    assert_ne!(receipt_hash_sha256(&other), receipt_hash_sha256(&v));
}

#[test]
fn keccak_of_empty_input() {
    assert_eq!(
        to_hex(&keccak256(&[])),
        "c5d2460186f7233c927e7db2dcc703c0e500b653ca82273b7bfad8045d85a470"
    );
}

#[test]
fn personal_hash_prefixes_tag_and_length() {
    let msg = [7u8; 32];
    let mut framed = b"\x19Ethereum Signed Message:\n32".to_vec();
    framed.extend_from_slice(&msg);
    assert_eq!(personal_hash_keccak(&msg), keccak256(&framed));
    assert_ne!(personal_hash_keccak(&msg), keccak256(&msg));
}

#[test]
fn normalize_hex_strips_prefix_and_pads() {
    assert_eq!(normalize_hex_even("0xabc"), "0abc");
    assert_eq!(normalize_hex_even("abcd"), "abcd");
    assert_eq!(normalize_hex_even("0x0xab"), "ab");
    assert_eq!(normalize_hex_even(""), "");
    assert_eq!(normalize_hex_even("é"), "é");
    assert_eq!(normalize_hex_even("0xéa"), "0éa");
}

#[test]
fn verify_scenario_any_signer() {
    let r = sample_receipt();
    let sig = sign(&r);
    let (hash, addr) = verify_receipt(&r, &sig, None, "ph", "ch").unwrap();
    assert_eq!(to_hex(&addr), SIGNER_ADDRESS);
    assert_eq!(hash, "e99e7477cc09d908682fbc7d5741ab37889e931dccf59329f8f58228c962522a");
    let reordered = obj(vec![
        ("a", num("2")),
        ("b", num("1")),
        ("consent_snapshot_hash", text("ch")),
        ("policy_hash", text("ph")),
    ]);
    let (hash2, addr2) = verify_receipt(&reordered, &sig, None, "ph", "ch").unwrap();
    assert_eq!(hash, hash2);
    assert_eq!(addr, addr2);
}

#[test]
fn verify_with_expected_gateway() {
    let r = sample_receipt();
    let sig = sign(&r);
    let (_, addr) = verify_receipt(&r, &sig, Some(address_bytes()), "ph", "ch").unwrap();
    assert_eq!(addr, address_bytes());
}

#[test]
fn signature_and_anchor_are_not_signed() {
    let r = sample_receipt();
    let sig = sign(&r);
    let mut with_extras = match sample_receipt() {
        JsonValue::Object(es) => es,
        _ => unreachable!(),
    };
    with_extras.push(("receipt_sig".to_string(), text(&sig)));
    with_extras.push(("anchor".to_string(), obj(vec![("l2_tx", obj(vec![("tx_hash", text("0xdead"))]))])));
    let full = JsonValue::Object(with_extras);
    assert!(verify_receipt(&full, &sig, Some(address_bytes()), "ph", "ch").is_ok());
}

#[test]
fn other_message_recovers_other_address() {
    let r = sample_receipt();
    let sig = sign(&obj(vec![("unrelated", num("1"))]));
    let addr = recover_address(&sig, signing_digest(&r)).unwrap();
    assert_ne!(to_hex(&addr), SIGNER_ADDRESS);
    assert!(matches!(
        verify_receipt(&r, &sig, Some(address_bytes()), "ph", "ch"),
        Err(VerifyError::AddressMismatch)
    ));
}

#[test]
fn tampered_receipt_fails_with_address_mismatch() {
    let r = sample_receipt();
    let sig = sign(&r);
    let tampered = obj(vec![
        ("b", num("1")),
        ("a", num("5")),
        ("policy_hash", text("ph")),
        ("consent_snapshot_hash", text("ch")),
    ]);
    assert_ne!(canonical_text(&tampered), canonical_text(&r));
    assert!(matches!(
        verify_receipt(&tampered, &sig, Some(address_bytes()), "ph", "ch"),
        Err(VerifyError::AddressMismatch)
    ));
}

#[test]
fn policy_and_consent_need_exact_match() {
    let r = sample_receipt();
    let sig = sign(&r);
    assert!(matches!(
        verify_receipt(&r, &sig, Some(address_bytes()), "PH", "ch"),
        Err(VerifyError::PolicyConsentMismatch)
    ));
    assert!(matches!(
        verify_receipt(&r, &sig, Some(address_bytes()), "ph", "ch "),
        Err(VerifyError::PolicyConsentMismatch)
    ));
}

#[test]
fn missing_policy_fails_even_when_signed() {
    let r = obj(vec![("a", num("1")), ("consent_snapshot_hash", text("ch"))]);
    let sig = sign(&r);
    assert!(matches!(
        verify_receipt(&r, &sig, Some(address_bytes()), "", "ch"),
        Err(VerifyError::PolicyConsentMismatch)
    ));
}

#[test]
fn any_signer_still_checks_policy() {
    let r = sample_receipt();
    let sig = sign(&obj(vec![("unrelated", num("1"))]));
    assert!(verify_receipt(&r, &sig, None, "ph", "ch").is_ok());
    assert!(matches!(
        verify_receipt(&r, &sig, None, "other", "ch"),
        Err(VerifyError::PolicyConsentMismatch)
    ));
}

#[test]
fn wrong_signature_lengths_are_signature_errors() {
    let r = sample_receipt();
    let short = format!("0x{}", "11".repeat(64));
    let long = format!("0x{}", "11".repeat(66));
    assert!(matches!(verify_receipt(&r, &short, None, "ph", "ch"), Err(VerifyError::Sig(_))));
    assert!(matches!(verify_receipt(&r, &long, None, "ph", "ch"), Err(VerifyError::Sig(_))));
}

#[test]
fn non_hex_signature_is_signature_error() {
    let r = sample_receipt();
    assert!(matches!(verify_receipt(&r, "0xzz", None, "ph", "ch"), Err(VerifyError::Sig(_))));
}

#[test]
fn zero_signature_does_not_recover() {
    let zero = "00".repeat(65);
    assert!(matches!(recover_address(&zero, [1u8; 32]), Err(VerifyError::Sig(_))));
}

#[test]
fn normalized_recovery_id_is_accepted() {
    let r = sample_receipt();
    let sig = sign(&r);
    let v = u8::from_str_radix(&sig[sig.len() - 2..], 16).unwrap();
    let plain = format!("{}{:02x}", &sig[..sig.len() - 2], v - 27);
    let addr = recover_address(&plain, signing_digest(&r)).unwrap();
    assert_eq!(to_hex(&addr), SIGNER_ADDRESS);
}

#[test]
fn gateway_widths() {
    let padded = format!("0x{}{}", "00".repeat(12), SIGNER_ADDRESS);
    assert_eq!(parse_gateway(&padded).unwrap(), address_bytes());
    assert_eq!(parse_gateway(SIGNER_ADDRESS).unwrap(), address_bytes());
    let short = "ab".repeat(31);
    assert!(matches!(parse_gateway(&short), Err(VerifyError::GatewayParse(_))));
    assert!(matches!(parse_gateway("0xnothex"), Err(VerifyError::GatewayParse(_))));
}

#[test]
fn build_fills_public_inputs_and_witness() {
    let mut entries = match sample_receipt() {
        JsonValue::Object(es) => es,
        _ => unreachable!(),
    };
    entries.push(("receipt_id".to_string(), text("r-1")));
    entries.push(("anchor".to_string(), obj(vec![("l2_tx", obj(vec![("tx_hash", text("0xbeef"))]))])));
    let r = JsonValue::Object(entries);
    let sig = sign(&r);
    let (p, w) = build_public_and_witness(&r, &sig, Some(SIGNER_ADDRESS)).unwrap();
    assert_eq!(p.receipt_hash, format!("0x{}", receipt_hash_sha256(&r)));
    assert_eq!(p.policy_hash, "ph");
    assert_eq!(p.consent_hash, "ch");
    assert_eq!(p.gateway_address, format!("0x{}", SIGNER_ADDRESS));
    assert_eq!(
        p.note.as_deref(),
        Some("Use these as public signals; feed canonical_receipt + sig as witness")
    );
    assert_eq!(
        w.canonical_receipt,
        String::from_utf8(signed_canonical_bytes(&r)).unwrap()
    );
    assert!(!w.canonical_receipt.contains("\"anchor\""));
    assert!(w.canonical_receipt.contains("\"receipt_id\":\"r-1\""));
    let inner = keccak256(w.canonical_receipt.as_bytes());
    assert_eq!(personal_hash_keccak(&inner), signing_digest(&r));
    assert_eq!(w.signature_hex, sig);
    assert_eq!(w.receipt_id.as_deref(), Some("r-1"));
    assert_eq!(w.anchor_tx_hash.as_deref(), Some("0xbeef"));
}

#[test]
fn build_without_optional_fields() {
    let r = sample_receipt();
    let sig = sign(&r);
    let (p, w) = build_public_and_witness(&r, &sig, None).unwrap();
    assert_eq!(p.gateway_address, format!("0x{}", SIGNER_ADDRESS));
    assert_eq!(w.receipt_id, None);
    assert_eq!(w.anchor_tx_hash, None);
}

#[test]
fn build_rejects_bad_gateway() {
    let r = sample_receipt();
    let sig = sign(&r);
    let short = "ab".repeat(31);
    assert!(matches!(
        build_public_and_witness(&r, &sig, Some(&short)),
        Err(VerifyError::GatewayParse(_))
    ));
}

fn sample_inputs() -> (PublicInputs, Witness) {
    (
        PublicInputs {
            receipt_hash: "0xabc123".to_string(),
            policy_hash: "ph".to_string(),
            consent_hash: "ch".to_string(),
            gateway_address: format!("0x{}", SIGNER_ADDRESS),
            note: None,
        },
        Witness {
            canonical_receipt: "{\"k\":\"é\"}".to_string(),
            signature_hex: "0xfeed".to_string(),
            receipt_id: Some("r-9".to_string()),
            anchor_tx_hash: None,
        },
    )
}

#[test]
fn local_proof_reuses_signature() {
    let (p, w) = sample_inputs();
    let proof = mock_prove(&p, &w);
    assert_eq!(proof.prover, "receipt_sig");
    assert_eq!(proof.proof, "0xfeed");
    assert_eq!(proof.proof_id, "proof_abc123");
    assert_eq!(proof.public_inputs.receipt_hash, "0xabc123");
    assert_eq!(proof.witness_summary.receipt_id.as_deref(), Some("r-9"));
    assert_eq!(proof.witness_summary.anchor_tx_hash, None);
}

#[test]
fn canonical_len_counts_characters() {
    let (p, w) = sample_inputs();
    let proof = mock_prove(&p, &w);
    assert_eq!(proof.witness_summary.canonical_len, w.canonical_receipt.chars().count());
    assert_eq!(proof.witness_summary.canonical_len, 9);
}

#[test]
fn fallback_uses_local_proof_on_failure_or_when_forced() {
    let (p, w) = sample_inputs();
    let failed = prove_with_fallback(Err(VerifyError::Prover("not set".to_string())), false, &p, &w);
    assert_eq!(failed.prover, "receipt_sig");
    let external = mock_prove(&p, &w);
    let mut ext = external;
    ext.prover = "external".to_string();
    let forced = prove_with_fallback(Ok(ext), true, &p, &w);
    assert_eq!(forced.prover, "receipt_sig");
    let mut ext2 = mock_prove(&p, &w);
    ext2.prover = "external".to_string();
    let kept = prove_with_fallback(Ok(ext2), false, &p, &w);
    assert_eq!(kept.prover, "external");
}

#[test]
fn checks_after_recovery() {
    let r = sample_receipt();
    let a = address_bytes();
    let mut other = a;
    other[0] ^= 1;
    assert!(check_recovered(&r, &a, Some(a), "ph", "ch").is_ok());
    assert!(check_recovered(&r, &a, None, "ph", "ch").is_ok());
    assert!(matches!(check_recovered(&r, &a, Some(other), "ph", "ch"), Err(VerifyError::AddressMismatch)));
    assert!(matches!(check_recovered(&r, &a, Some(other), "x", "ch"), Err(VerifyError::AddressMismatch)));
    assert!(matches!(check_recovered(&r, &a, None, "ph", "x"), Err(VerifyError::PolicyConsentMismatch)));
}

#[test]
fn words_split_on_any_whitespace() {
    assert_eq!(split_words("  prove\t--fast \u{3000}x "), vec!["prove", "--fast", "x"]);
    assert!(split_words(" \n ").is_empty());
}

#[test]
fn prover_command_needs_a_program() {
    assert!(matches!(prover_command(None), Err(VerifyError::Prover(_))));
    assert!(matches!(prover_command(Some("   ")), Err(VerifyError::Prover(_))));
    let (bin, args) = prover_command(Some("luminair prove --json")).unwrap();
    assert_eq!(bin, "luminair");
    assert_eq!(args, vec!["prove".to_string(), "--json".to_string()]);
}
