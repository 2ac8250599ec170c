//! The canonical signing and final encodings of a message.
use vstd::prelude::*;
use vstd::string::*;
use crate::message::{Content, Message};
use crate::outside::{box_rest_len, canonical_json, hash_rest_len, key_rest_len, sig_rest_len};

verus! {

/// The bytes of an ASCII text.
pub open spec fn ascii(s: Seq<char>) -> Seq<u8> {
    s.map_values(|c: char| c as u8)
}

/// A byte that a legacy JSON string holds without an escape.
pub open spec fn is_text_byte(b: u8) -> bool {
    0x20 <= b && b != 0x22 && b != 0x5c
}

/// A text that is written between quotes as it is.
pub open spec fn is_text(s: Seq<u8>) -> bool {
    forall|i: int| 0 <= i < s.len() ==> is_text_byte(#[trigger] s[i])
}

/// A byte of a rendered JSON number.
pub open spec fn is_number_byte(b: u8) -> bool {
    (0x30 <= b && b <= 0x39) || b == 0x2d || b == 0x2b || b == 0x2e || b == 0x45 || b == 0x65
}

/// The rendering of a float: a non-empty run of number bytes.
pub open spec fn is_number_text(s: Seq<u8>) -> bool {
    s.len() > 0 && forall|i: int| 0 <= i < s.len() ==> is_number_byte(#[trigger] s[i])
}

/// A payload at indentation level one, framed so that its end can be told
/// from the envelope that follows it: each line break in it is followed by
/// at least one level of indentation and then not by a key of the envelope.
pub open spec fn is_framed(p: Seq<u8>) -> bool {
    &&& p.len() > 0
    &&& forall|i: int|
        0 <= i < p.len() && #[trigger] p[i] == 0x0a ==> i + 3 < p.len() && p[i + 1] == 0x20 && p[i
            + 2] == 0x20 && p[i + 3] != 0x22
}

/// The most opening brackets that a JSON text handed to the legacy parser
/// may hold: this bounds how deep the parser recurses.
pub const MAX_JSON_OPENERS: usize = 512;

pub open spec fn is_opener(b: u8) -> bool {
    b == 0x5b || b == 0x7b
}

/// How many opening brackets (`[` or `{`) a text holds.
pub open spec fn openers(s: Seq<u8>) -> nat
    decreases s.len(),
{
    if s.len() == 0 {
        0
    } else {
        openers(s.drop_last()) + if is_opener(s.last()) {
            1nat
        } else {
            0nat
        }
    }
}

/// A JSON text that the legacy parser may read, and that it writes back,
/// at indentation one, as it stands.
pub open spec fn is_canonical_json(s: Seq<u8>) -> bool {
    openers(s) <= MAX_JSON_OPENERS && canonical_json(s) == Some(s)
}

/// The decimal digits of `n`, without leading zeros.
pub open spec fn decimal(n: nat) -> Seq<u8>
    decreases n,
{
    if n < 10 {
        seq![(0x30 + n) as u8]
    } else {
        decimal(n / 10).push((0x30 + n % 10) as u8)
    }
}

pub open spec fn quoted(s: Seq<u8>) -> Seq<u8> {
    seq![0x22u8] + s + seq![0x22u8]
}

pub open spec fn previous_value(p: Option<Vec<u8>>) -> Seq<u8> {
    match p {
        None => ascii("null"@),
        Some(h) => quoted(h@),
    }
}

pub open spec fn content_value(c: Content<Vec<u8>>) -> Seq<u8> {
    match c {
        Content::Encrypted(b) => quoted(b@),
        Content::Plain(p) => p@,
    }
}

/// The `sequence` and `timestamp` entries, in the order that `swapped` picks.
pub open spec fn counters(m: Message<Vec<u8>>) -> Seq<u8> {
    let seq_entry = ascii(",\n  \"sequence\": "@) + decimal(m.sequence as nat);
    let time_entry = ascii(",\n  \"timestamp\": "@) + m.timestamp@;
    if m.swapped {
        time_entry + seq_entry
    } else {
        seq_entry + time_entry
    }
}

/// Every entry of a message but its signature, without the closing brace.
pub open spec fn entries(m: Message<Vec<u8>>) -> Seq<u8> {
    ascii("{\n  \"previous\": "@) + previous_value(m.previous) + ascii(",\n  \"author\": "@)
        + quoted(m.author@) + counters(m) + ascii(",\n  \"hash\": \"sha256\",\n  \"content\": "@)
        + content_value(m.content)
}

/// The bytes over which a message's signature is computed.
pub open spec fn signing_encoding(m: Message<Vec<u8>>) -> Seq<u8> {
    entries(m) + ascii("\n}"@)
}

/// The stored form of a message: the signing encoding with the signature
/// appended as a last entry.
pub open spec fn final_encoding(m: Message<Vec<u8>>, sig: Seq<u8>) -> Seq<u8> {
    entries(m) + ascii(",\n  \"signature\": "@) + quoted(sig) + ascii("\n}"@)
}

/// A final encoding with its signature entry cut out is the signing
/// encoding: both are the entries and the closing line, and the final one
/// holds the signature entry between them.
pub proof fn lemma_signature_entry(m: Message<Vec<u8>>, sig: Seq<u8>)
    ensures
        final_encoding(m, sig) == entries(m) + (ascii(",\n  \"signature\": "@) + quoted(sig)) + ascii(
            "\n}"@,
        ),
        signing_encoding(m) == entries(m) + ascii("\n}"@),
{
    assert(final_encoding(m, sig) =~= entries(m) + (ascii(",\n  \"signature\": "@) + quoted(sig))
        + ascii("\n}"@));
}

/// The encoding of a message as it is stored: final if it is signed.
pub open spec fn encoding(m: Message<Vec<u8>>) -> Seq<u8> {
    match m.signature {
        None => signing_encoding(m),
        Some(s) => final_encoding(m, s@),
    }
}

/// Content that the encodings can carry: a box text that needs no escape
/// and is one whole encrypted box, or a plain payload that is framed, does not open with a quote (it would
/// read as a box) and is canonical legacy JSON at indentation one.
pub open spec fn content_well_formed(c: Content<Vec<u8>>) -> bool {
    match c {
        Content::Encrypted(b) => is_text(b@) && box_rest_len(b@) == Some(0nat),
        Content::Plain(p) => is_framed(p@) && p@[0] != 0x22 && is_canonical_json(p@),
    }
}

/// A message that the encodings can carry: texts that need no escape; a
/// previous hash, an author and a signature that are each one whole
/// identifier; a timestamp in the legacy rendering of a float; and content
/// that the encodings carry.
pub open spec fn well_formed(m: Message<Vec<u8>>) -> bool {
    &&& (m.previous matches Some(h) ==> is_text(h@) && hash_rest_len(h@) == Some(0nat))
    &&& is_text(m.author@)
    &&& key_rest_len(m.author@) == Some(0nat)
    &&& is_number_text(m.timestamp@)
    &&& is_canonical_json(m.timestamp@)
    &&& content_well_formed(m.content)
    &&& (m.signature matches Some(s) ==> is_text(s@) && sig_rest_len(m.author@, s@) == Some(0nat))
}

pub(crate) fn push_all(out: &mut Vec<u8>, s: &[u8])
    ensures
        final(out)@ == old(out)@ + s@,
{
    let mut i: usize = 0;
    while i < s.len()
        invariant
            i <= s@.len(),
            out@ == old(out)@ + s@.subrange(0, i as int),
        decreases s@.len() - i,
    {
        out.push(s[i]);
        i = i + 1;
        proof {
            assert(s@.subrange(0, i as int) == s@.subrange(0, i - 1) + seq![s@[i - 1]]);
        }
    }
    assert(s@.subrange(0, s@.len() as int) == s@);
}

pub(crate) fn push_ascii(out: &mut Vec<u8>, s: &str)
    requires
        is_ascii(s),
    ensures
        final(out)@ == old(out)@ + ascii(s@),
{
    proof {
        is_ascii_spec_bytes(s);
    }
    push_all(out, s.as_bytes());
    assert(s.spec_bytes() == ascii(s@));
}

fn push_quoted(out: &mut Vec<u8>, s: &Vec<u8>)
    ensures
        final(out)@ == old(out)@ + quoted(s@),
{
    out.push(0x22);
    push_all(out, s.as_slice());
    out.push(0x22);
    assert(final(out)@ == old(out)@ + quoted(s@));
}

fn push_decimal(out: &mut Vec<u8>, n: u64)
    ensures
        final(out)@ == old(out)@ + decimal(n as nat),
    decreases n,
{
    if n >= 10 {
        push_decimal(out, n / 10);
    }
    out.push((0x30 + n % 10) as u8);
    assert(final(out)@ == old(out)@ + decimal(n as nat));
}

fn push_entries(out: &mut Vec<u8>, m: &Message<Vec<u8>>)
    ensures
        final(out)@ == old(out)@ + entries(*m),
{
    let ghost start = out@;
    proof {
        reveal_strlit("{\n  \"previous\": ");
        reveal_strlit("null");
        reveal_strlit(",\n  \"author\": ");
        reveal_strlit(",\n  \"sequence\": ");
        reveal_strlit(",\n  \"timestamp\": ");
        reveal_strlit(",\n  \"hash\": \"sha256\",\n  \"content\": ");
    }
    push_ascii(out, "{\n  \"previous\": ");
    match &m.previous {
        None => push_ascii(out, "null"),
        Some(h) => push_quoted(out, h),
    }
    push_ascii(out, ",\n  \"author\": ");
    push_quoted(out, &m.author);
    let ghost before_counters = out@;
    if m.swapped {
        push_ascii(out, ",\n  \"timestamp\": ");
        push_all(out, m.timestamp.as_slice());
        push_ascii(out, ",\n  \"sequence\": ");
        push_decimal(out, m.sequence);
    } else {
        push_ascii(out, ",\n  \"sequence\": ");
        push_decimal(out, m.sequence);
        push_ascii(out, ",\n  \"timestamp\": ");
        push_all(out, m.timestamp.as_slice());
    }
    assert(out@ == before_counters + counters(*m));
    push_ascii(out, ",\n  \"hash\": \"sha256\",\n  \"content\": ");
    match &m.content {
        Content::Encrypted(b) => push_quoted(out, b),
        Content::Plain(p) => push_all(out, p.as_slice()),
    }
    assert(out@ == start + entries(*m));
}

/// The signing encoding of a message: the bytes that its signature covers.
/// A plain payload is given as its own signing encoding at indentation one.
pub fn encode_signing(m: &Message<Vec<u8>>) -> (r: Vec<u8>)
    ensures
        r@ == signing_encoding(*m),
{
    let mut out: Vec<u8> = Vec::new();
    push_entries(&mut out, m);
    proof {
        reveal_strlit("\n}");
    }
    push_ascii(&mut out, "\n}");
    out
}

/// The stored form of a message: its final encoding when it is signed, its
/// signing encoding while it is not.
pub fn encode(m: &Message<Vec<u8>>) -> (r: Vec<u8>)
    ensures
        r@ == encoding(*m),
{
    let mut out: Vec<u8> = Vec::new();
    push_entries(&mut out, m);
    proof {
        reveal_strlit(",\n  \"signature\": ");
        reveal_strlit("\n}");
    }
    match &m.signature {
        None => {},
        Some(sig) => {
            push_ascii(&mut out, ",\n  \"signature\": ");
            push_quoted(&mut out, sig);
        },
    }
    push_ascii(&mut out, "\n}");
    out
}

} // verus!
