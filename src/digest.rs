use vstd::prelude::*;
use crate::encoding::{decode_hex, normalize_hex_even, normalized_hex, hex_decodable, hex_decoded, encode_hex, hex_lower};
use crate::json::{Json, JsonValue, canonical_bytes, canonical_json_bytes, lemma_reordered_same_canonical, reordered};
use crate::receipt::VerifyError;
use sha2::Digest;
use tiny_keccak::Hasher;

verus! {

/// The SHA-256 digest of a byte string.
pub uninterp spec fn sha256_of(b: Seq<u8>) -> Seq<u8>;

/// The Keccak-256 digest of a byte string.
pub uninterp spec fn keccak_of(b: Seq<u8>) -> Seq<u8>;

/// The uncompressed SEC1 encoding (65 bytes) of the secp256k1 public key that
/// the signature `rs` (r and s, 32 bytes each) with recovery id `rec` recovers
/// over the prehashed `digest`; `None` where recovery fails.
pub uninterp spec fn recovered_key(rs: Seq<u8>, rec: u8, digest: Seq<u8>) -> Option<Seq<u8>>;

/// Relies on sha2's Sha256: the 32-byte digest of the input.
#[verifier::external_body]
fn sha256_digest(b: &[u8]) -> (r: Vec<u8>)
    ensures
        r@ == sha256_of(b@),
        r@.len() == 32,
{
    sha2::Sha256::digest(b).to_vec()
}

/// Relies on tiny_keccak's Keccak::v256: the 32-byte digest of the input.
#[verifier::external_body]
fn keccak_digest(b: &[u8]) -> (r: [u8; 32])
    ensures
        r@ == keccak_of(b@),
{
    let mut k = tiny_keccak::Keccak::v256();
    let mut out = [0u8; 32];
    k.update(b);
    k.finalize(&mut out);
    out
}

/// Relies on k256's RecoveryId::from_byte, Signature::from_slice,
/// VerifyingKey::recover_from_prehash and to_encoded_point(false): recovery of
/// the signer's key, encoded uncompressed (65 bytes), or an error; a zero `r`
/// or `s` is refused by `Signature::from_slice`.
#[verifier::external_body]
fn recover_uncompressed_key(rs: &[u8], rec: u8, digest: &[u8; 32]) -> (r: Result<Vec<u8>, String>)
    requires
        rs@.len() == 64,
        rec < 4,
    ensures
        match r {
            Ok(k) => recovered_key(rs@, rec, digest@) == Some(k@) && k@.len() == 65,
            Err(_) => recovered_key(rs@, rec, digest@) is None,
        },
        rs@.take(32) == Seq::new(32, |i: int| 0u8) || rs@.skip(32) == Seq::new(32, |i: int| 0u8)
            ==> r is Err,
{
    let id = match k256::ecdsa::RecoveryId::from_byte(rec) {
        Some(id) => id,
        None => return Err(String::from("bad recovery id")),
    };
    let sig = match k256::ecdsa::Signature::from_slice(rs) {
        Ok(sig) => sig,
        Err(e) => return Err(e.to_string()),
    };
    match k256::ecdsa::VerifyingKey::recover_from_prehash(digest, &sig, id) {
        Ok(vk) => Ok(vk.to_encoded_point(false).as_bytes().to_vec()),
        Err(e) => Err(e.to_string()),
    }
}

/// Keccak-256 over arbitrary bytes.
pub fn keccak256(bytes: &[u8]) -> (r: [u8; 32])
    ensures
        r@ == keccak_of(bytes@),
{
    keccak_digest(bytes)
}

/// The tag that opens a personal message: `"\x19Ethereum Signed Message:\n"`.
pub open spec fn personal_tag() -> Seq<u8> {
    seq![0x19u8, 0x45, 0x74, 0x68, 0x65, 0x72, 0x65, 0x75, 0x6d, 0x20, 0x53, 0x69, 0x67, 0x6e, 0x65, 0x64, 0x20, 0x4d, 0x65, 0x73, 0x73, 0x61, 0x67, 0x65, 0x3a, 0x0a]
}

/// The decimal digits of `n`, most significant first.
pub open spec fn decimal(n: nat) -> Seq<u8>
    decreases n,
{
    if n < 10 {
        seq![(48 + n) as u8]
    } else {
        decimal(n / 10) + seq![(48 + n % 10) as u8]
    }
}

/// The personal-message digest of `b`: Keccak-256 over the tag, the decimal
/// length of `b`, then `b`.
pub open spec fn personal_digest(b: Seq<u8>) -> Seq<u8> {
    keccak_of(personal_tag() + decimal(b.len()) + b)
}

fn push_decimal(out: &mut Vec<u8>, n: usize)
    ensures
        final(out)@ == old(out)@ + decimal(n as nat),
    decreases n,
{
    if n >= 10 {
        push_decimal(out, n / 10);
    }
    out.push(48 + (n % 10) as u8);
    assert(out@ =~= old(out)@ + decimal(n as nat));
}

/// Ethereum personal-sign hash (EIP-191) over bytes.
pub fn personal_hash_keccak(bytes: &[u8]) -> (r: [u8; 32])
    ensures
        r@ == personal_digest(bytes@),
{
    let tag: [u8; 26] = [0x19, 0x45, 0x74, 0x68, 0x65, 0x72, 0x65, 0x75, 0x6d, 0x20, 0x53, 0x69, 0x67, 0x6e, 0x65, 0x64, 0x20, 0x4d, 0x65, 0x73, 0x73, 0x61, 0x67, 0x65, 0x3a, 0x0a];
    let mut msg: Vec<u8> = Vec::new();
    let mut i: usize = 0;
    while i < 26
        invariant
            i <= 26,
            tag@ == personal_tag(),
            msg@ == personal_tag().take(i as int),
        decreases 26 - i,
    {
        msg.push(tag[i]);
        i = i + 1;
        assert(msg@ =~= personal_tag().take(i as int));
    }
    assert(personal_tag().take(26) =~= personal_tag());
    push_decimal(&mut msg, bytes.len());
    let mut j: usize = 0;
    let ghost pre = msg@;
    while j < bytes.len()
        invariant
            j <= bytes@.len(),
            msg@ == pre + bytes@.take(j as int),
        decreases bytes.len() - j,
    {
        msg.push(bytes[j]);
        j = j + 1;
        assert(msg@ =~= pre + bytes@.take(j as int));
    }
    assert(bytes@.take(bytes@.len() as int) =~= bytes@);
    keccak_digest(msg.as_slice())
}


/// The recovery id carried by the last signature byte: 27 and 28 stand for 0
/// and 1; any other value is taken modulo 4.
pub open spec fn recovery_id(v: u8) -> u8 {
    if v == 27 || v == 28 {
        (v - 27) as u8
    } else {
        v % 4
    }
}

/// The address of an uncompressed public key: the last 20 bytes of the
/// Keccak-256 digest of the key without its format byte.
pub open spec fn address_of_key(k: Seq<u8>) -> Seq<u8> {
    keccak_of(k.subrange(1, k.len() as int)).subrange(12, 32)
}

/// The address that a hex signature `r || s || v` recovers over `digest`, where
/// it decodes to 65 bytes and recovery succeeds.
pub open spec fn signer_of(sig: Seq<char>, digest: Seq<u8>) -> Option<Seq<u8>> {
    let h = normalized_hex(sig);
    let b = hex_decoded(h);
    if hex_decodable(h) && b.len() == 65 {
        match recovered_key(b.take(64), recovery_id(b[64]), digest) {
            Some(k) => Some(address_of_key(k)),
            None => None,
        }
    } else {
        None
    }
}

/// The receipt hash of a document: lowercase hex of the SHA-256 digest of its
/// canonical text.
pub open spec fn receipt_hash(j: crate::json::Json) -> Seq<char> {
    hex_lower(sha256_of(canonical_bytes(j)))
}

/// SHA-256 over the canonical text (no whitespace, sorted keys), as lowercase hex.
pub fn receipt_hash_sha256(val: &JsonValue) -> (r: String)
    ensures
        r@ == receipt_hash(val@),
        r@.len() == 64,
{
    let text = canonical_json_bytes(val);
    let d = sha256_digest(text.as_slice());
    encode_hex(d.as_slice())
}

/// Recovers the signer's address from a hex signature `r || s || v` over a digest.
pub fn recover_address(sig_hex: &str, msg_hash: [u8; 32]) -> (r: Result<[u8; 20], VerifyError>)
    ensures
        match r {
            Ok(a) => signer_of(sig_hex@, msg_hash@) == Some(a@),
            Err(e) => {
                &&& signer_of(sig_hex@, msg_hash@) is None
                &&& e is Sig
            },
        },
{
    let clean = normalize_hex_even(sig_hex);
    let sig_bytes = match decode_hex(clean.as_str()) {
        Ok(b) => b,
        Err(msg) => {
            return Err(VerifyError::Sig(msg));
        },
    };
    if sig_bytes.len() != 65 {
        return Err(VerifyError::Sig(String::from_str("expected 65-byte signature")));
    }
    let v = sig_bytes[64];
    let rec: u8 = if v == 27 || v == 28 {
        v - 27
    } else {
        v % 4
    };
    let rs = vstd::slice::slice_subrange(sig_bytes.as_slice(), 0, 64);
    let key = match recover_uncompressed_key(rs, rec, &msg_hash) {
        Ok(k) => k,
        Err(msg) => {
            return Err(VerifyError::Sig(msg));
        },
    };
    let body = vstd::slice::slice_subrange(key.as_slice(), 1, 65);
    let h = keccak_digest(body);
    let mut addr = [0u8; 20];
    let mut i: usize = 0;
    while i < 20
        invariant
            i <= 20,
            h@ == keccak_of(key@.subrange(1, 65)),
            addr@.len() == 20,
            forall|j: int| 0 <= j < i ==> addr@[j] == h@[j + 12],
        decreases 20 - i,
    {
        addr[i] = h[i + 12];
        i = i + 1;
    }
    assert(addr@ =~= address_of_key(key@));
    Ok(addr)
}


/// Documents that differ only in the order of object entries, at any depth,
/// have the same receipt hash.
pub proof fn lemma_receipt_hash_key_order(a: Json, b: Json)
    requires
        reordered(a, b),
    ensures
        receipt_hash(a) == receipt_hash(b),
{
    lemma_reordered_same_canonical(a, b);
}

} // verus!
