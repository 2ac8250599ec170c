use ssb_crypto::Keypair;
use ssb_legacy_msg::decode::{decode, DecodeError, Malformed};
use ssb_legacy_msg::encode::{encode, encode_signing};
use ssb_legacy_msg::message::{Content, Message};
use ssb_legacy_msg::verify::{check_chain, link_after, message_hash, verify, VerificationError};
use ssb_multiformats::multikey::{Multikey, Multisig};

const GOLDEN: &str = "{\n  \"previous\": \"%XphMUkWQtomKjXQvFGfsGYpt69sgEY7Y4Vou9cEuJho=.sha256\",\n  \"author\": \"@FCX/tsDLpubCPKKfIrw4gc+SQkHcaD17s7GI6i/ziWY=.ed25519\",\n  \"sequence\": 2,\n  \"timestamp\": 1514517078157,\n  \"hash\": \"sha256\",\n  \"content\": {\n    \"type\": \"post\",\n    \"text\": \"Second post!\"\n  },\n  \"signature\": \"z7W1ERg9UYZjNfE72ZwEuJF79khG+eOHWFp6iF+KLuSrw8Lqa6IousK4cCn9T5qFa8E14GVek4cAMmMbjqDFAg==.sig.ed25519\"\n}";

const GOLDEN_SIGNING: &str = "{\n  \"previous\": \"%XphMUkWQtomKjXQvFGfsGYpt69sgEY7Y4Vou9cEuJho=.sha256\",\n  \"author\": \"@FCX/tsDLpubCPKKfIrw4gc+SQkHcaD17s7GI6i/ziWY=.ed25519\",\n  \"sequence\": 2,\n  \"timestamp\": 1514517078157,\n  \"hash\": \"sha256\",\n  \"content\": {\n    \"type\": \"post\",\n    \"text\": \"Second post!\"\n  }\n}";

const ABOUT: &str = "{\n  \"previous\": null,\n  \"author\": \"@FCX/tsDLpubCPKKfIrw4gc+SQkHcaD17s7GI6i/ziWY=.ed25519\",\n  \"sequence\": 1,\n  \"timestamp\": 1514517067954,\n  \"hash\": \"sha256\",\n  \"content\": {\n    \"type\": \"about\",\n    \"about\": \"@FCX/tsDLpubCPKKfIrw4gc+SQkHcaD17s7GI6i/ziWY=.ed25519\",\n    \"name\": \"alice\"\n  }\n}";

const POST: &str = "{\n  \"previous\": \"%XphMUkWQtomKjXQvFGfsGYpt69sgEY7Y4Vou9cEuJho=.sha256\",\n  \"author\": \"@FCX/tsDLpubCPKKfIrw4gc+SQkHcaD17s7GI6i/ziWY=.ed25519\",\n  \"sequence\": 3,\n  \"timestamp\": 1514517078157,\n  \"hash\": \"sha256\",\n  \"content\": {\n    \"type\": \"post\",\n    \"text\": \"Bob?\",\n    \"mentions\": []\n  }\n}";

const POST_PAYLOAD: &str = "{\n    \"type\": \"post\",\n    \"text\": \"hi\"\n  }";

fn keypair() -> Keypair {
    Keypair::from_seed(&[7u8; 32]).unwrap()
}

fn author_of(kp: &Keypair) -> Vec<u8> {
    Multikey::from_ed25519(&kp.public.0).to_legacy_vec()
}

fn sign(kp: &Keypair, m: &Message<Vec<u8>>) -> Message<Vec<u8>> {
    let data = encode_signing(m);
    let sig = Multisig::from_ed25519(&kp.sign(&data).0).to_legacy_vec();
    m.clone().with_signature(sig)
}

fn unsigned(kp: &Keypair, sequence: u64, previous: Option<Vec<u8>>, payload: &str) -> Message<Vec<u8>> {
    Message {
        previous,
        author: author_of(kp),
        sequence,
        timestamp: b"1".to_vec(),
        content: Content::Plain(payload.as_bytes().to_vec()),
        swapped: false,
        signature: None,
    }
}

fn malformed(s: &[u8]) -> Malformed {
    match decode(s) {
        Err(DecodeError::MalformedEncoding { detail }) => detail,
        Ok(_) => panic!("decoded"),
    }
}

#[test]
fn parse() {
    let (msg, rest) = decode(ABOUT.as_bytes()).unwrap();
    assert!(msg.previous.is_none());
    assert_eq!(msg.sequence, 1);
    assert!(rest.is_empty());
}

#[test]
fn round_trip_a_post_message() {
    let (msg, _rest) = decode(POST.as_bytes()).unwrap();
    let sign_json = encode_signing(&msg);
    let (msg, _rest) = decode(&sign_json).unwrap();
    match msg.content {
        Content::Plain(p) => {
            let text = String::from_utf8(p).unwrap();
            assert!(text.contains("\"text\": \"Bob?\""));
        }
        _ => panic!(),
    }
}

#[test]
fn golden_message_reencodes_byte_for_byte() {
    let (msg, rest) = decode(GOLDEN.as_bytes()).unwrap();
    assert!(rest.is_empty());
    assert_eq!(msg.sequence, 2);
    assert_eq!(encode(&msg), GOLDEN.as_bytes().to_vec());
    assert_eq!(encode_signing(&msg), GOLDEN_SIGNING.as_bytes().to_vec());
}

#[test]
fn decode_leaves_trailing_bytes() {
    let mut input = GOLDEN.as_bytes().to_vec();
    input.extend_from_slice(b"\n\nnext");
    let (msg, rest) = decode(&input).unwrap();
    assert_eq!(rest, b"\n\nnext".to_vec());
    assert_eq!(encode(&msg), GOLDEN.as_bytes().to_vec());
}

#[test]
fn unsigned_plain_message_round_trips() {
    let kp = keypair();
    let m = unsigned(&kp, 1, None, POST_PAYLOAD);
    let bytes = encode_signing(&m);
    let (back, rest) = decode(&bytes).unwrap();
    assert_eq!(back, m);
    assert!(rest.is_empty());
}

#[test]
fn unsigned_encrypted_message_round_trips() {
    let kp = keypair();
    let mut m = unsigned(&kp, 4, Some(b"%XphMUkWQtomKjXQvFGfsGYpt69sgEY7Y4Vou9cEuJho=.sha256".to_vec()), POST_PAYLOAD);
    m.content = Content::Encrypted(b"c2VjcmV0IGJ5dGVz.box".to_vec());
    m.timestamp = b"1514517078157.5".to_vec();
    let bytes = encode_signing(&m);
    let (back, rest) = decode(&bytes).unwrap();
    assert_eq!(back, m);
    assert!(rest.is_empty());
}

#[test]
fn signing_encoding_exact_bytes() {
    let m = Message {
        previous: None,
        author: b"@FCX/tsDLpubCPKKfIrw4gc+SQkHcaD17s7GI6i/ziWY=.ed25519".to_vec(),
        sequence: 12,
        timestamp: b"1.5".to_vec(),
        content: Content::Encrypted(b"YWJj.box".to_vec()),
        swapped: false,
        signature: None,
    };
    let expected = "{\n  \"previous\": null,\n  \"author\": \"@FCX/tsDLpubCPKKfIrw4gc+SQkHcaD17s7GI6i/ziWY=.ed25519\",\n  \"sequence\": 12,\n  \"timestamp\": 1.5,\n  \"hash\": \"sha256\",\n  \"content\": \"YWJj.box\"\n}";
    assert_eq!(encode_signing(&m), expected.as_bytes().to_vec());
    assert_eq!(encode(&m), expected.as_bytes().to_vec());
    let signed = m.with_signature(b"c2ln.sig.ed25519".to_vec());
    let expected_final = "{\n  \"previous\": null,\n  \"author\": \"@FCX/tsDLpubCPKKfIrw4gc+SQkHcaD17s7GI6i/ziWY=.ed25519\",\n  \"sequence\": 12,\n  \"timestamp\": 1.5,\n  \"hash\": \"sha256\",\n  \"content\": \"YWJj.box\",\n  \"signature\": \"c2ln.sig.ed25519\"\n}";
    assert_eq!(encode(&signed), expected_final.as_bytes().to_vec());
}

#[test]
fn swapped_order_is_kept() {
    let swapped = GOLDEN.replace(
        "  \"sequence\": 2,\n  \"timestamp\": 1514517078157,\n",
        "  \"timestamp\": 1514517078157,\n  \"sequence\": 2,\n",
    );
    let (msg, _) = decode(swapped.as_bytes()).unwrap();
    assert!(msg.swapped);
    assert_eq!(msg.sequence, 2);
    assert_eq!(encode(&msg), swapped.as_bytes().to_vec());
    let (plain, _) = decode(GOLDEN.as_bytes()).unwrap();
    assert!(!plain.swapped);
}

#[test]
fn genesis_chain_validity() {
    let kp = keypair();
    let genesis = sign(&kp, &unsigned(&kp, 1, None, POST_PAYLOAD));
    assert_eq!(verify(&genesis, &None), Ok(()));
    let wrong = sign(&kp, &unsigned(&kp, 2, None, POST_PAYLOAD));
    assert_eq!(
        verify(&wrong, &None),
        Err(VerificationError::ChainError {
            expected_sequence: 1,
            actual_sequence: 2,
            expected_previous: None,
            actual_previous: None,
        })
    );
    let h = b"%XphMUkWQtomKjXQvFGfsGYpt69sgEY7Y4Vou9cEuJho=.sha256".to_vec();
    let with_prev = sign(&kp, &unsigned(&kp, 1, Some(h.clone()), POST_PAYLOAD));
    assert_eq!(
        verify(&with_prev, &None),
        Err(VerificationError::ChainError {
            expected_sequence: 1,
            actual_sequence: 1,
            expected_previous: None,
            actual_previous: Some(h),
        })
    );
}

#[test]
fn chained_message_validity() {
    let kp = keypair();
    let first = sign(&kp, &unsigned(&kp, 1, None, POST_PAYLOAD));
    let link = link_after(&first).unwrap();
    let h = message_hash(&first).unwrap();
    assert_eq!(link, (h.clone(), 1));
    let second = sign(&kp, &unsigned(&kp, 2, Some(h.clone()), POST_PAYLOAD));
    assert_eq!(verify(&second, &Some(link.clone())), Ok(()));
    let skipped = sign(&kp, &unsigned(&kp, 3, Some(h.clone()), POST_PAYLOAD));
    assert_eq!(
        verify(&skipped, &Some(link.clone())),
        Err(VerificationError::ChainError {
            expected_sequence: 2,
            actual_sequence: 3,
            expected_previous: Some(h.clone()),
            actual_previous: Some(h.clone()),
        })
    );
    let other = message_hash(&second).unwrap();
    let forked = sign(&kp, &unsigned(&kp, 2, Some(other.clone()), POST_PAYLOAD));
    assert!(matches!(
        verify(&forked, &Some(link)),
        Err(VerificationError::ChainError { .. })
    ));
    assert_eq!(check_chain(&second, &Some((h, 1))), Ok(()));
}

#[test]
fn message_hash_is_a_sha256_multihash() {
    let kp = keypair();
    let first = sign(&kp, &unsigned(&kp, 1, None, POST_PAYLOAD));
    let second = sign(&kp, &unsigned(&kp, 2, None, POST_PAYLOAD));
    let h1 = String::from_utf8(message_hash(&first).unwrap()).unwrap();
    let h2 = String::from_utf8(message_hash(&second).unwrap()).unwrap();
    assert!(h1.starts_with('%'));
    assert!(h1.ends_with(".sha256"));
    assert_eq!(h1.len(), 52);
    assert_ne!(h1, h2);
    assert_eq!(h1, String::from_utf8(message_hash(&first).unwrap()).unwrap());
}

#[test]
fn sequence_saturates_in_chain_error() {
    let kp = keypair();
    let m = sign(&kp, &unsigned(&kp, 5, None, POST_PAYLOAD));
    let h = b"%XphMUkWQtomKjXQvFGfsGYpt69sgEY7Y4Vou9cEuJho=.sha256".to_vec();
    assert_eq!(
        check_chain(&m, &Some((h.clone(), u64::MAX))),
        Err(VerificationError::ChainError {
            expected_sequence: u64::MAX,
            actual_sequence: 5,
            expected_previous: Some(h),
            actual_previous: None,
        })
    );
}

#[test]
fn tampering_breaks_the_signature() {
    let kp = keypair();
    let m = sign(&kp, &unsigned(&kp, 1, None, POST_PAYLOAD));
    assert_eq!(verify(&m, &None), Ok(()));

    let mut content = m.clone();
    content.content = Content::Plain(POST_PAYLOAD.replace("hi", "hj").into_bytes());
    assert_eq!(verify(&content, &None), Err(VerificationError::InvalidSignature));

    let mut timestamp = m.clone();
    timestamp.timestamp = b"2".to_vec();
    assert_eq!(verify(&timestamp, &None), Err(VerificationError::InvalidSignature));

    let mut author = m.clone();
    author.author = author_of(&Keypair::from_seed(&[8u8; 32]).unwrap());
    assert_eq!(verify(&author, &None), Err(VerificationError::InvalidSignature));

    let mut swapped = m.clone();
    swapped.swapped = true;
    assert_eq!(verify(&swapped, &None), Err(VerificationError::InvalidSignature));

    let h = b"%XphMUkWQtomKjXQvFGfsGYpt69sgEY7Y4Vou9cEuJho=.sha256".to_vec();
    let second = sign(&kp, &unsigned(&kp, 2, Some(h.clone()), POST_PAYLOAD));
    let mut sequence = second.clone();
    sequence.sequence = 3;
    assert_eq!(verify(&sequence, &Some((h.clone(), 2))), Err(VerificationError::InvalidSignature));
    let mut previous = second.clone();
    let mut other = h.clone();
    other[5] = b'Y';
    previous.previous = Some(other.clone());
    assert_eq!(verify(&previous, &Some((other, 1))), Err(VerificationError::InvalidSignature));
}

#[test]
fn missing_signature_is_reported_first() {
    let kp = keypair();
    let m = unsigned(&kp, 7, None, POST_PAYLOAD);
    assert_eq!(verify(&m, &None), Err(VerificationError::MissingSignature));
}

#[test]
fn encrypted_content_verifies_without_decryption() {
    let kp = keypair();
    let mut m = unsigned(&kp, 1, None, POST_PAYLOAD);
    assert!(!m.is_encrypted());
    m.content = Content::Encrypted(b"c2VjcmV0IGJ5dGVz.box".to_vec());
    let m = sign(&kp, &m);
    assert!(m.is_encrypted());
    assert_eq!(verify(&m, &None), Ok(()));
    let (back, _) = decode(&encode(&m)).unwrap();
    assert!(back.is_encrypted());
    assert_eq!(verify(&back, &None), Ok(()));
}

#[test]
fn sample_scenario() {
    let kp = keypair();
    let m = Message {
        previous: None,
        author: author_of(&kp),
        sequence: 1,
        timestamp: b"1".to_vec(),
        content: Content::Plain(POST_PAYLOAD.as_bytes().to_vec()),
        swapped: false,
        signature: None,
    };
    let m = sign(&kp, &m);
    assert_eq!(verify(&m, &None), Ok(()));
    let mut hacked = m.clone();
    hacked.content = Content::Plain(POST_PAYLOAD.replace("\"hi\"", "\"hacked\"").into_bytes());
    assert_eq!(verify(&hacked, &None), Err(VerificationError::InvalidSignature));
}

#[test]
fn decode_errors() {
    assert_eq!(malformed(b""), Malformed::UnexpectedByte);
    assert_eq!(malformed(b"{\n  \"previous\": \"abc"), Malformed::Truncated);
    assert_eq!(malformed(b"{\n  \"previous\": \"a\\b\""), Malformed::InvalidText);
    let bad_author = ABOUT.replace("@FCX/tsDLpubCPKKfIrw4gc+SQkHcaD17s7GI6i/ziWY=.ed25519\",\n  \"seq", "@nope.ed25519\",\n  \"seq");
    assert_eq!(malformed(bad_author.as_bytes()), Malformed::InvalidAuthor);
    let bad_number = ABOUT.replace("\"sequence\": 1,", "\"sequence\": x,");
    assert_eq!(malformed(bad_number.as_bytes()), Malformed::InvalidNumber);
    let huge = ABOUT.replace("\"sequence\": 1,", "\"sequence\": 99999999999999999999999,");
    assert_eq!(malformed(huge.as_bytes()), Malformed::InvalidNumber);
    let leading_zero = ABOUT.replace("\"sequence\": 1,", "\"sequence\": 01,");
    assert_eq!(malformed(leading_zero.as_bytes()), Malformed::NonCanonical);
    let compact = ABOUT.replace("\"name\": \"alice\"", "\"name\":\"alice\"");
    assert_eq!(malformed(compact.as_bytes()), Malformed::InvalidContent);
    let not_json = ABOUT.replace("\"name\": \"alice\"", "\"name\": alice");
    assert_eq!(malformed(not_json.as_bytes()), Malformed::InvalidContent);
    let no_hash = ABOUT.replace("  \"hash\": \"sha256\",\n", "");
    assert_eq!(malformed(no_hash.as_bytes()), Malformed::UnexpectedByte);
}

#[test]
fn out_of_range_signature_scalar_is_invalid() {
    let kp = keypair();
    let mut m = unsigned(&kp, 1, None, POST_PAYLOAD);
    let mut sig = "A".repeat(84);
    sig.push_str("/w==.sig.ed25519");
    m.signature = Some(sig.into_bytes());
    assert_eq!(verify(&m, &None), Err(VerificationError::InvalidSignature));
}

#[test]
fn author_off_the_curve_is_invalid() {
    let kp = keypair();
    let mut found = false;
    for i in 0..=255u8 {
        let bytes = [i; 32];
        if ed25519_dalek::PublicKey::from_bytes(&bytes).is_err() {
            let signed = sign(&kp, &unsigned(&kp, 1, None, POST_PAYLOAD));
            let mut m = signed.clone();
            m.author = Multikey::from_ed25519(&bytes).to_legacy_vec();
            assert_eq!(verify(&m, &None), Err(VerificationError::InvalidSignature));
            let (back, _) = decode(&encode(&m)).unwrap();
            assert_eq!(verify(&back, &None), Err(VerificationError::InvalidSignature));
            found = true;
            break;
        }
    }
    assert!(found);
}

#[test]
fn non_canonical_timestamp_is_rejected() {
    let trailing_zero = ABOUT.replace("1514517067954", "1.50");
    assert_eq!(malformed(trailing_zero.as_bytes()), Malformed::InvalidNumber);
    let sign_only = ABOUT.replace("1514517067954", "+");
    assert_eq!(malformed(sign_only.as_bytes()), Malformed::InvalidNumber);
    let fine = ABOUT.replace("1514517067954", "1.5");
    assert_eq!(decode(fine.as_bytes()).unwrap().0.timestamp, b"1.5".to_vec());
}

#[test]
fn encrypted_content_needs_a_box() {
    let kp = keypair();
    let mut m = unsigned(&kp, 1, None, POST_PAYLOAD);
    m.content = Content::Encrypted(b"just a string".to_vec());
    assert_eq!(malformed(&encode_signing(&m)), Malformed::InvalidContent);
}

#[test]
fn malformed_identifiers_are_rejected() {
    let bad_previous = GOLDEN.replace("%XphMUkWQtomKjXQvFGfsGYpt69sgEY7Y4Vou9cEuJho=.sha256", "%nope.sha256");
    assert_eq!(malformed(bad_previous.as_bytes()), Malformed::InvalidText);
    let bad_signature = GOLDEN.replace("z7W1ERg9UYZjNfE72ZwEuJF79khG+eOHWFp6iF+KLuSrw8Lqa6IousK4cCn9T5qFa8E14GVek4cAMmMbjqDFAg==.sig.ed25519", "nope.sig.ed25519");
    assert_eq!(malformed(bad_signature.as_bytes()), Malformed::InvalidText);
}

#[test]
fn deeply_nested_content_is_rejected_before_parsing() {
    let kp = keypair();
    let mut payload = "[".repeat(100_000);
    payload.push_str(&"]".repeat(100_000));
    let m = unsigned(&kp, 1, None, &payload);
    assert_eq!(malformed(&encode_signing(&m)), Malformed::InvalidContent);
    let shallow = unsigned(&kp, 1, None, "[\n    [\n      1\n    ]\n  ]");
    let (back, _) = decode(&encode_signing(&shallow)).unwrap();
    assert_eq!(back, shallow);
}
