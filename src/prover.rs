use vstd::prelude::*;
use crate::encoding::{strip_0x, strip_hex_prefix};
use crate::receipt::VerifyError;

verus! {

/// The values exposed to a proof circuit.
#[derive(Debug, Clone, PartialEq, Eq)]
pub struct PublicInputs {
    pub receipt_hash: String,
    pub policy_hash: String,
    pub consent_hash: String,
    pub gateway_address: String,
    pub note: Option<String>,
}

/// The data a prover needs beside the public inputs.
#[derive(Debug, Clone, PartialEq, Eq)]
pub struct Witness {
    pub canonical_receipt: String,
    pub signature_hex: String,
    pub receipt_id: Option<String>,
    pub anchor_tx_hash: Option<String>,
}

/// What a prover hands back.
#[derive(Debug, Clone, PartialEq, Eq)]
pub struct Proof {
    pub proof_id: String,
    pub proof: String,
    pub public_inputs: PublicInputs,
    pub witness_summary: WitnessSummary,
    pub prover: String,
}

/// What a proof records of its witness.
#[derive(Debug, Clone, PartialEq, Eq)]
pub struct WitnessSummary {
    pub receipt_id: Option<String>,
    pub anchor_tx_hash: Option<String>,
    pub canonical_len: usize,
}

pub open spec fn opt_view(o: Option<String>) -> Option<Seq<char>> {
    match o {
        Some(s) => Some(s@),
        None => None,
    }
}

/// Two sets of public inputs with the same text in every field.
pub open spec fn same_inputs(a: PublicInputs, b: PublicInputs) -> bool {
    &&& a.receipt_hash@ == b.receipt_hash@
    &&& a.policy_hash@ == b.policy_hash@
    &&& a.consent_hash@ == b.consent_hash@
    &&& a.gateway_address@ == b.gateway_address@
    &&& opt_view(a.note) == opt_view(b.note)
}

/// Two proofs with the same text and counts in every field.
pub open spec fn same_proof(a: Proof, b: Proof) -> bool {
    &&& a.proof_id@ == b.proof_id@
    &&& a.proof@ == b.proof@
    &&& same_inputs(a.public_inputs, b.public_inputs)
    &&& opt_view(a.witness_summary.receipt_id) == opt_view(b.witness_summary.receipt_id)
    &&& opt_view(a.witness_summary.anchor_tx_hash) == opt_view(b.witness_summary.anchor_tx_hash)
    &&& a.witness_summary.canonical_len == b.witness_summary.canonical_len
    &&& a.prover@ == b.prover@
}

/// The proof the local stand-in makes: the signature itself stands as the
/// proof, labelled `receipt_sig`.
pub open spec fn is_local_proof(r: Proof, p: PublicInputs, w: Witness) -> bool {
    &&& r.proof_id@ == "proof_"@ + strip_0x(p.receipt_hash@)
    &&& r.proof@ == w.signature_hex@
    &&& same_inputs(r.public_inputs, p)
    &&& opt_view(r.witness_summary.receipt_id) == opt_view(w.receipt_id)
    &&& opt_view(r.witness_summary.anchor_tx_hash) == opt_view(w.anchor_tx_hash)
    &&& r.witness_summary.canonical_len == w.canonical_receipt@.len()
    &&& r.prover@ == "receipt_sig"@
}

fn copy_text(o: &Option<String>) -> (r: Option<String>)
    ensures
        opt_view(r) == opt_view(*o),
{
    match o {
        Some(s) => Some(s.clone()),
        None => None,
    }
}

fn copy_inputs(p: &PublicInputs) -> (r: PublicInputs)
    ensures
        same_inputs(r, *p),
{
    PublicInputs {
        receipt_hash: p.receipt_hash.clone(),
        policy_hash: p.policy_hash.clone(),
        consent_hash: p.consent_hash.clone(),
        gateway_address: p.gateway_address.clone(),
        note: copy_text(&p.note),
    }
}

/// The local stand-in prover: re-uses the receipt signature as the proof
/// payload. It is not a zero-knowledge proof.
pub fn mock_prove(pub_inputs: &PublicInputs, witness: &Witness) -> (r: Proof)
    ensures
        is_local_proof(r, *pub_inputs, *witness),
{
    let prefix = String::from_str("proof_");
    let proof_id = prefix.concat(strip_hex_prefix(pub_inputs.receipt_hash.as_str()));
    Proof {
        proof_id,
        proof: witness.signature_hex.clone(),
        public_inputs: copy_inputs(pub_inputs),
        witness_summary: WitnessSummary {
            receipt_id: copy_text(&witness.receipt_id),
            anchor_tx_hash: copy_text(&witness.anchor_tx_hash),
            canonical_len: witness.canonical_receipt.as_str().unicode_len(),
        },
        prover: String::from_str("receipt_sig"),
    }
}

/// Picks the proof to hand out: the external prover's, unless the local
/// stand-in is forced or the external prover failed.
pub fn prove_with_fallback(
    external: Result<Proof, VerifyError>,
    force_local: bool,
    pub_inputs: &PublicInputs,
    witness: &Witness,
) -> (r: Proof)
    ensures
        match external {
            Ok(p) if !force_local => same_proof(r, p),
            _ => is_local_proof(r, *pub_inputs, *witness),
        },
{
    if force_local {
        return mock_prove(pub_inputs, witness);
    }
    match external {
        Ok(p) => p,
        Err(_) => mock_prove(pub_inputs, witness),
    }
}

/// Unicode `White_Space`, the set that splits a prover command into words.
pub open spec fn is_space(c: char) -> bool {
    ('\u{9}' <= c && c <= '\u{d}') || c == ' ' || c == '\u{85}' || c == '\u{a0}' || c
        == '\u{1680}' || ('\u{2000}' <= c && c <= '\u{200a}') || c == '\u{2028}' || c
        == '\u{2029}' || c == '\u{202f}' || c == '\u{205f}' || c == '\u{3000}'
}

/// The words of `s` from position `i` on, `cur` being the word begun before `i`.
pub open spec fn words_from(s: Seq<char>, i: int, cur: Seq<char>) -> Seq<Seq<char>>
    decreases s.len() - i,
{
    let done: Seq<Seq<char>> = if cur.len() > 0 {
        seq![cur]
    } else {
        Seq::empty()
    };
    if i < 0 || i >= s.len() {
        done
    } else if is_space(s[i]) {
        done + words_from(s, i + 1, Seq::empty())
    } else {
        words_from(s, i + 1, cur.push(s[i]))
    }
}

/// The maximal runs of non-space characters of `s`, in order.
pub open spec fn words(s: Seq<char>) -> Seq<Seq<char>> {
    words_from(s, 0, Seq::empty())
}

fn is_space_char(c: char) -> (r: bool)
    ensures
        r == is_space(c),
{
    ('\u{9}' <= c && c <= '\u{d}') || c == ' ' || c == '\u{85}' || c == '\u{a0}' || c
        == '\u{1680}' || ('\u{2000}' <= c && c <= '\u{200a}') || c == '\u{2028}' || c
        == '\u{2029}' || c == '\u{202f}' || c == '\u{205f}' || c == '\u{3000}'
}

/// Splits `s` into its whitespace-separated words.
pub fn split_words(s: &str) -> (r: Vec<String>)
    ensures
        r@.len() == words(s@).len(),
        forall|k: int| 0 <= k < r@.len() ==> #[trigger] r@[k]@ == words(s@)[k],
{
    let n = s.unicode_len();
    let mut out: Vec<String> = Vec::new();
    let ghost acc: Seq<Seq<char>> = Seq::empty();
    let mut start: usize = 0;
    let mut i: usize = 0;
    proof {
        assert(s@.subrange(0, 0) =~= Seq::<char>::empty());
        assert(acc + words(s@) =~= words(s@));
    }
    while i < n
        invariant
            n == s@.len(),
            start <= i <= n,
            out@.len() == acc.len(),
            forall|k: int| 0 <= k < acc.len() ==> #[trigger] out@[k]@ == acc[k],
            words(s@) == acc + words_from(s@, i as int, s@.subrange(start as int, i as int)),
        decreases n - i,
    {
        let c = s.get_char(i);
        let ghost cur = s@.subrange(start as int, i as int);
        let ghost rest = words_from(s@, i + 1, Seq::empty());
        if is_space_char(c) {
            proof {
                assert(words_from(s@, i as int, cur) == (if cur.len() > 0 {
                    seq![cur]
                } else {
                    Seq::<Seq<char>>::empty()
                }) + rest);
            }
            if start < i {
                let w = s.substring_char(start, i).to_owned();
                out.push(w);
                proof {
                    assert(acc + (seq![cur] + rest) =~= acc.push(cur) + rest);
                    acc = acc.push(cur);
                }
            } else {
                proof {
                    assert(acc + (Seq::<Seq<char>>::empty() + rest) =~= acc + rest);
                }
            }
            start = i + 1;
            proof {
                assert(s@.subrange(start as int, i + 1) =~= Seq::<char>::empty());
            }
        } else {
            proof {
                assert(cur.push(c) =~= s@.subrange(start as int, i + 1));
            }
        }
        i = i + 1;
    }
    if start < n {
        let w = s.substring_char(start, n).to_owned();
        out.push(w);
        proof {
            acc = acc.push(s@.subrange(start as int, n as int));
        }
    } else {
        proof {
            assert(s@.subrange(start as int, n as int) =~= Seq::<char>::empty());
            assert(acc + Seq::<Seq<char>>::empty() =~= acc);
        }
    }
    out
}

/// The program and arguments of a configured prover command: its first word
/// and the words after it. An absent or blank command is a prover error.
pub fn prover_command(config: Option<&str>) -> (r: Result<(String, Vec<String>), VerifyError>)
    ensures
        match config {
            None => r is Err && r->Err_0 is Prover,
            Some(c) => if words(c@).len() == 0 {
                r is Err && r->Err_0 is Prover
            } else {
                &&& r is Ok
                &&& r->Ok_0.0@ == words(c@)[0]
                &&& r->Ok_0.1@.len() == words(c@).len() - 1
                &&& forall|k: int|
                    0 <= k < r->Ok_0.1@.len() ==> #[trigger] r->Ok_0.1@[k]@ == words(c@)[k + 1]
            },
        },
{
    let cmd = match config {
        Some(c) => c,
        None => {
            return Err(VerifyError::Prover(String::from_str("prover command not set")));
        },
    };
    let mut parts = split_words(cmd);
    if parts.len() == 0 {
        return Err(VerifyError::Prover(String::from_str("empty prover command")));
    }
    let ghost before = parts@;
    let bin = parts.remove(0);
    assert forall|k: int| 0 <= k < parts@.len() implies #[trigger] parts@[k]@ == words(cmd@)[k + 1] by {
        assert(parts@[k] == before[k + 1]);
    }
    Ok((bin, parts))
}

} // verus!
