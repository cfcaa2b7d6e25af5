//! Verification of signed receipts: canonical JSON, receipt hashing, signer
//! recovery, policy and consent checks, and the data handed to a prover.
use vstd::prelude::*;

pub mod digest;
pub mod encoding;
pub mod json;
pub mod prover;
pub mod receipt;

pub use digest::{keccak256, personal_hash_keccak, receipt_hash_sha256, recover_address};
pub use encoding::normalize_hex_even;
pub use json::{canonical_json, canonical_json_bytes, signed_canonical_bytes, JsonValue};
pub use prover::{mock_prove, prove_with_fallback, prover_command, split_words, Proof, PublicInputs, Witness, WitnessSummary};
pub use receipt::{build_public_and_witness, check_recovered, parse_gateway, verify_receipt, Receipt, VerifyError};

verus! {

} // verus!
