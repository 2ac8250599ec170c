//! What this library takes from outside crates.
use vstd::prelude::*;
use ssb_legacy_msg_data::json::{from_slice, to_writer_indent};
use ssb_legacy_msg_data::value::Value;
use ssb_legacy_msg_data::to_weird_encoding;
use ssb_multiformats::multibox::Multibox;
use ssb_multiformats::multihash::Multihash;
use ssb_multiformats::multikey::Multikey;
use crate::encode::{is_text, openers, MAX_JSON_OPENERS};

verus! {

/// What `ssb_legacy_msg_data` makes of a legacy JSON text: parsed into a
/// value and written back in the signing encoding at indentation one, or
/// nothing if it does not parse.
pub uninterp spec fn canonical_json(s: Seq<u8>) -> Option<Seq<u8>>;

/// How many bytes `ssb_multiformats` leaves over after the public key
/// identifier that it reads at the front of a text, or nothing if it reads
/// none.
pub uninterp spec fn key_rest_len(s: Seq<u8>) -> Option<nat>;

/// Whether the public key that `ssb_multiformats` reads at the front of
/// `author` is a point of the ed25519 curve.
pub uninterp spec fn key_on_curve(author: Seq<u8>) -> bool;

/// Whether the signature that `ssb_multiformats` reads from `sig` for the
/// key of `author` has its scalar in the range that `ed25519` accepts.
pub uninterp spec fn signature_in_range(author: Seq<u8>, sig: Seq<u8>) -> bool;

/// How many bytes `ssb_multiformats` leaves over after the message hash
/// that it reads at the front of a text, or nothing if it reads none.
pub uninterp spec fn hash_rest_len(s: Seq<u8>) -> Option<nat>;

/// How many bytes `ssb_multiformats` leaves over after the encrypted box
/// that it reads at the front of a text, or nothing if it reads none.
pub uninterp spec fn box_rest_len(s: Seq<u8>) -> Option<nat>;

/// How many bytes `ssb_multiformats` leaves over after the signature that
/// it reads at the front of `sig` for the key of `author`, or nothing if it
/// reads no key or no signature.
pub uninterp spec fn sig_rest_len(author: Seq<u8>, sig: Seq<u8>) -> Option<nat>;

/// Whether `ssb_multiformats` accepts `sig` (a legacy signature text) as a
/// signature of `data` by `author` (a legacy public key text).
pub uninterp spec fn signature_ok(author: Seq<u8>, data: Seq<u8>, sig: Seq<u8>) -> bool;

/// The legacy text of the message hash (`%<base64>.sha256`) that
/// `ssb_multiformats` gives for the SHA-256 digest that `crypto_hash`
/// computes over the legacy hash bytes of a message text; nothing if the
/// text is not UTF-8.
pub uninterp spec fn legacy_message_hash(s: Seq<u8>) -> Option<Seq<u8>>;

/// Relies on `std::str::from_utf8`, on `ssb_legacy_msg_data::to_weird_encoding`
/// for the bytes that the legacy hash covers, on `crypto_hash::digest` for
/// their SHA-256 digest, and on `Multihash::to_legacy_vec` for its text, which
/// is a sigil, base64 and a suffix: no byte of it needs an escape.
#[verifier::external_body]
pub(crate) fn hash_text(s: &[u8]) -> (r: Option<Vec<u8>>)
    ensures
        match r {
            None => legacy_message_hash(s@) is None,
            Some(h) => legacy_message_hash(s@) == Some(h@) && is_text(h@),
        },
{
    let text = std::str::from_utf8(s).ok()?;
    let bytes: Vec<u8> = to_weird_encoding(text).collect();
    let digest = crypto_hash::digest(crypto_hash::Algorithm::SHA256, &bytes);
    let digest: [u8; 32] = digest.try_into().ok()?;
    Some(Multihash::Message(digest).to_legacy_vec())
}

/// Relies on `ssb_legacy_msg_data::json::from_slice` to parse a legacy JSON
/// value, and on `ssb_legacy_msg_data::json::to_writer_indent` to write it in
/// the signing encoding at indentation one.
/// `from_slice` recurses once for each level of nesting, with no limit of
/// its own; the number of opening brackets bounds that depth, and the bound
/// keeps the recursion within the stack.
#[verifier::external_body]
pub(crate) fn canonicalize_json(s: &[u8]) -> (r: Option<Vec<u8>>)
    requires
        openers(s@) <= MAX_JSON_OPENERS,
    ensures
        match r {
            None => canonical_json(s@) is None,
            Some(v) => canonical_json(s@) == Some(v@),
        },
{
    let value: Value = from_slice(s).ok()?;
    let mut out = Vec::new();
    to_writer_indent(&mut out, &value, false, 1).ok()?;
    Some(out)
}

/// Relies on `Multikey::from_legacy`: the length of what it leaves over
/// after a key identifier, which is part of its input.
#[verifier::external_body]
pub(crate) fn key_rest(s: &[u8]) -> (r: Option<usize>)
    ensures
        match r {
            None => key_rest_len(s@) is None,
            Some(n) => key_rest_len(s@) == Some(n as nat) && n <= s@.len(),
        },
{
    match Multikey::from_legacy(s) {
        Ok((_, rest)) => Some(rest.len()),
        Err(_) => None,
    }
}

/// Relies on `Multihash::from_legacy`: the length of what it leaves over
/// after a message hash, which is part of its input.
#[verifier::external_body]
pub(crate) fn hash_rest(s: &[u8]) -> (r: Option<usize>)
    ensures
        match r {
            None => hash_rest_len(s@) is None,
            Some(n) => hash_rest_len(s@) == Some(n as nat) && n <= s@.len(),
        },
{
    match Multihash::from_legacy(s) {
        Ok((_, rest)) => Some(rest.len()),
        Err(_) => None,
    }
}

/// Relies on `Multibox::from_legacy`: the length of what it leaves over
/// after an encrypted box, which is part of its input.
#[verifier::external_body]
pub(crate) fn box_rest(s: &[u8]) -> (r: Option<usize>)
    ensures
        match r {
            None => box_rest_len(s@) is None,
            Some(n) => box_rest_len(s@) == Some(n as nat) && n <= s@.len(),
        },
{
    match Multibox::from_legacy(s) {
        Ok((_, rest)) => Some(rest.len()),
        Err(_) => None,
    }
}

/// Relies on `Multikey::from_legacy` to read the key and on
/// `Multikey::sig_from_legacy`: the length of what it leaves over after the
/// signature, which is part of `sig`.
#[verifier::external_body]
pub(crate) fn sig_rest(author: &[u8], sig: &[u8]) -> (r: Option<usize>)
    ensures
        match r {
            None => sig_rest_len(author@, sig@) is None,
            Some(n) => sig_rest_len(author@, sig@) == Some(n as nat) && n <= sig@.len(),
        },
{
    let key = match Multikey::from_legacy(author) {
        Ok((key, _)) => key,
        Err(_) => return None,
    };
    match key.sig_from_legacy(sig) {
        Ok((_, rest)) => Some(rest.len()),
        Err(_) => None,
    }
}

/// Relies on `Multikey::from_legacy` to read the key, and on
/// `ed25519_dalek::PublicKey::from_bytes`, which fails (where the unwrap in
/// `ssb_crypto`'s check would panic) when the key bytes are not a point.
#[verifier::external_body]
pub(crate) fn key_is_point(author: &[u8]) -> (r: bool)
    ensures
        r == key_on_curve(author@),
{
    match Multikey::from_legacy(author) {
        Ok((Multikey::Ed25519(pk), _)) => ed25519_dalek::PublicKey::from_bytes(&pk.0).is_ok(),
        Err(_) => false,
    }
}

/// Relies on `Multikey::from_legacy` and `Multikey::sig_from_legacy` to read
/// the signature, on `Multisig::to_legacy_string` and
/// `ssb_crypto::Signature::from_base64` for its bytes, and on
/// `ed25519_dalek::Signature::from_bytes`, which fails where the
/// `Signature::new` in `ssb_crypto`'s check would panic.
#[verifier::external_body]
pub(crate) fn signature_scalar_ok(author: &[u8], sig: &[u8]) -> (r: bool)
    ensures
        r == signature_in_range(author@, sig@),
{
    let key = match Multikey::from_legacy(author) {
        Ok((key, _)) => key,
        Err(_) => return false,
    };
    let sig = match key.sig_from_legacy(sig) {
        Ok((sig, _)) => sig,
        Err(_) => return false,
    };
    match ssb_crypto::Signature::from_base64(&sig.to_legacy_string()) {
        Some(bytes) => ed25519_dalek::Signature::from_bytes(&bytes.0).is_ok(),
        None => false,
    }
}

/// Relies on `Multikey::from_legacy` and `Multikey::sig_from_legacy` to read
/// the key and the signature, and on `Multikey::is_signature_correct` to check
/// the signature; a text that does not parse gives `false`. The check panics
/// on a key that is not a curve point or a signature scalar out of range,
/// which the precondition leaves out.
#[verifier::external_body]
pub(crate) fn check_signature(author: &[u8], data: &[u8], sig: &[u8]) -> (r: bool)
    requires
        key_on_curve(author@),
        signature_in_range(author@, sig@),
    ensures
        r == signature_ok(author@, data@, sig@),
{
    let key = match Multikey::from_legacy(author) {
        Ok((key, _)) => key,
        Err(_) => return false,
    };
    match key.sig_from_legacy(sig) {
        Ok((sig, _)) => key.is_signature_correct(data, &sig),
        Err(_) => false,
    }
}

} // verus!
