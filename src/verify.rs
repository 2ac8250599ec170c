//! Verification of a message: its signature and its link to the message
//! before it in the feed.
use vstd::prelude::*;
use crate::encode::{encode, encode_signing, encoding, signing_encoding};
use crate::message::{opt_view, Message};
use crate::outside::{
    check_signature, hash_text, key_is_point, key_on_curve, legacy_message_hash, signature_in_range,
    signature_ok, signature_scalar_ok,
};

verus! {

/// Why a message was rejected.
#[derive(Debug, Clone, PartialEq, Eq)]
pub enum VerificationError {
    /// The message carries no signature.
    MissingSignature,
    /// The message does not follow the message it was checked against. The
    /// expected sequence number saturates at `u64::MAX`.
    ChainError {
        expected_sequence: u64,
        actual_sequence: u64,
        expected_previous: Option<Vec<u8>>,
        actual_previous: Option<Vec<u8>>,
    },
    /// The signature does not match the author and the signing encoding.
    InvalidSignature,
}

/// Whether `m` follows the message that `prev` describes by its hash text
/// and sequence number; `None` stands for no message, so `m` starts a feed.
pub open spec fn links_to(m: Message<Vec<u8>>, prev: Option<(Vec<u8>, u64)>) -> bool {
    match prev {
        None => m.sequence == 1 && m.previous is None,
        Some((h, n)) => m.sequence == n + 1 && opt_view(m.previous) == Some(h@),
    }
}

/// The sequence number that `prev` asks of the next message, saturated.
pub open spec fn expected_sequence(prev: Option<(Vec<u8>, u64)>) -> u64 {
    match prev {
        None => 1,
        Some((_, n)) => if n < u64::MAX { (n + 1) as u64 } else { u64::MAX },
    }
}

pub open spec fn expected_previous(prev: Option<(Vec<u8>, u64)>) -> Option<Seq<u8>> {
    match prev {
        None => None,
        Some((h, _)) => Some(h@),
    }
}

/// `e` is the chain error that reports `m` against `prev`.
pub open spec fn is_chain_error_for(
    e: VerificationError,
    m: Message<Vec<u8>>,
    prev: Option<(Vec<u8>, u64)>,
) -> bool {
    match e {
        VerificationError::ChainError {
            expected_sequence: es,
            actual_sequence: s,
            expected_previous: ep,
            actual_previous: p,
        } => es == expected_sequence(prev) && s == m.sequence && opt_view(ep) == expected_previous(
            prev,
        ) && opt_view(p) == opt_view(m.previous),
        _ => false,
    }
}

/// Whether `sig` is a valid signature of `data` by `author`: the key is a
/// curve point, the signature scalar is in range, and the check passes.
pub open spec fn signature_valid(author: Seq<u8>, data: Seq<u8>, sig: Seq<u8>) -> bool {
    key_on_curve(author) && signature_in_range(author, sig) && signature_ok(author, data, sig)
}

/// Whether a message is accepted: it is signed, it links to `prev`, and its
/// signature is valid for its author over its signing encoding.
pub open spec fn accepts(m: Message<Vec<u8>>, prev: Option<(Vec<u8>, u64)>) -> bool {
    match m.signature {
        None => false,
        Some(s) => links_to(m, prev) && signature_valid(m.author@, signing_encoding(m), s@),
    }
}

fn bytes_eq(a: &[u8], b: &[u8]) -> (r: bool)
    ensures
        r == (a@ == b@),
{
    if a.len() != b.len() {
        return false;
    }
    let mut i: usize = 0;
    while i < a.len()
        invariant
            a@.len() == b@.len(),
            i <= a@.len(),
            forall|j: int| 0 <= j < i ==> a@[j] == b@[j],
        decreases a@.len() - i,
    {
        if a[i] != b[i] {
            return false;
        }
        i = i + 1;
    }
    assert(a@ =~= b@);
    true
}

fn copy_bytes(a: &Vec<u8>) -> (r: Vec<u8>)
    ensures
        r@ == a@,
{
    let mut out: Vec<u8> = Vec::new();
    let mut i: usize = 0;
    while i < a.len()
        invariant
            i <= a@.len(),
            out@ == a@.subrange(0, i as int),
        decreases a@.len() - i,
    {
        out.push(a[i]);
        i = i + 1;
        assert(out@ =~= a@.subrange(0, i as int));
    }
    assert(out@ =~= a@);
    out
}

fn copy_opt(a: &Option<Vec<u8>>) -> (r: Option<Vec<u8>>)
    ensures
        opt_view(r) == opt_view(*a),
{
    match a {
        None => None,
        Some(v) => Some(copy_bytes(v)),
    }
}

/// Checks the link of `m` to the message before it: for `Some((hash,
/// sequence))` of that message, `m` must have the next sequence number and
/// name that hash as previous; for `None`, `m` must start the feed.
pub fn check_chain(m: &Message<Vec<u8>>, prev: &Option<(Vec<u8>, u64)>) -> (r: Result<
    (),
    VerificationError,
>)
    ensures
        r is Ok <==> links_to(*m, *prev),
        r matches Err(e) ==> is_chain_error_for(e, *m, *prev),
{
    let linked = match prev {
        None => m.sequence == 1 && m.previous.is_none(),
        Some((h, n)) => {
            *n < u64::MAX && m.sequence == *n + 1 && match &m.previous {
                None => false,
                Some(p) => bytes_eq(p.as_slice(), h.as_slice()),
            }
        },
    };
    if linked {
        Ok(())
    } else {
        let expected = match prev {
            None => 1,
            Some((_, n)) => if *n < u64::MAX { *n + 1 } else { u64::MAX },
        };
        let expected_prev = match prev {
            None => None,
            Some((h, _)) => Some(copy_bytes(h)),
        };
        Err(VerificationError::ChainError {
            expected_sequence: expected,
            actual_sequence: m.sequence,
            expected_previous: expected_prev,
            actual_previous: copy_opt(&m.previous),
        })
    }
}

/// Verifies a message against the message before it in its feed (`None`
/// for the first message of a feed), in this order: a signature must be
/// present, the chain link must hold, and the signature must be valid over
/// the signing encoding. A key that is not a curve point, or a signature
/// scalar out of range, makes the signature invalid. Encrypted content is
/// verified as it stands.
pub fn verify(m: &Message<Vec<u8>>, prev: &Option<(Vec<u8>, u64)>) -> (r: Result<
    (),
    VerificationError,
>)
    ensures
        r is Ok <==> accepts(*m, *prev),
        m.signature is None ==> r matches Err(VerificationError::MissingSignature),
        m.signature is Some && !links_to(*m, *prev) ==> (r matches Err(e) && is_chain_error_for(
            e,
            *m,
            *prev,
        )),
        m.signature is Some && links_to(*m, *prev) && r is Err ==> r matches Err(
            VerificationError::InvalidSignature,
        ),
{
    let sig = match &m.signature {
        None => return Err(VerificationError::MissingSignature),
        Some(s) => s,
    };
    check_chain(m, prev)?;
    if !key_is_point(m.author.as_slice()) || !signature_scalar_ok(m.author.as_slice(), sig.as_slice()) {
        return Err(VerificationError::InvalidSignature);
    }
    let data = encode_signing(m);
    if check_signature(m.author.as_slice(), data.as_slice(), sig.as_slice()) {
        Ok(())
    } else {
        Err(VerificationError::InvalidSignature)
    }
}

/// The hash text of a message: the legacy hash of its stored encoding, by
/// which the next message of its feed names it as `previous`. `None` when
/// the encoding is not UTF-8.
pub fn message_hash(m: &Message<Vec<u8>>) -> (r: Option<Vec<u8>>)
    ensures
        opt_view(r) == legacy_message_hash(encoding(*m)),
{
    let bytes = encode(m);
    hash_text(bytes.as_slice())
}

/// What the next message of the feed is checked against: the hash text and
/// the sequence number of `m`. `None` when `m` has no hash.
pub fn link_after(m: &Message<Vec<u8>>) -> (r: Option<(Vec<u8>, u64)>)
    ensures
        match r {
            None => legacy_message_hash(encoding(*m)) is None,
            Some((h, n)) => legacy_message_hash(encoding(*m)) == Some(h@) && n == m.sequence,
        },
{
    match message_hash(m) {
        None => None,
        Some(h) => Some((h, m.sequence)),
    }
}

/// A message whose signature is valid is accepted as the first message of
/// a feed exactly when its sequence number is one and it names no previous
/// message; and after the message with hash `h` and sequence number `n`
/// exactly when its sequence number is `n + 1` and it names `h` as previous.
pub proof fn lemma_chain_validity(m: Message<Vec<u8>>, h: Vec<u8>, n: u64)
    requires
        m.signature matches Some(s) && signature_valid(m.author@, signing_encoding(m), s@),
    ensures
        accepts(m, None) <==> (m.sequence == 1 && m.previous is None),
        accepts(m, Some((h, n))) <==> (m.sequence == n + 1 && opt_view(m.previous) == Some(h@)),
{
}

/// Encrypted content needs no decryption to be verified: a signed message
/// with an encrypted box, a valid signature and a valid link is accepted,
/// and reports that its content is encrypted.
pub proof fn lemma_encrypted_accepted(m: Message<Vec<u8>>, prev: Option<(Vec<u8>, u64)>)
    requires
        m.content is Encrypted,
        m.signature matches Some(s) && signature_valid(m.author@, signing_encoding(m), s@),
        links_to(m, prev),
    ensures
        accepts(m, prev),
        m.content.spec_is_encrypted(),
{
}

} // verus!
