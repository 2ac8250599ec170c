//! Reading a message off the front of a byte buffer.
use vstd::prelude::*;
use vstd::slice::{slice_subrange, slice_to_vec};
use vstd::string::*;
use crate::encode::{
    ascii, content_value, content_well_formed, counters, decimal, encode, encoding, entries,
    is_framed, openers, previous_value, quoted, signing_encoding, MAX_JSON_OPENERS, is_number_byte, is_number_text, is_text, is_text_byte,
    well_formed,
};
use crate::message::{content_view, opt_view, same_message, Content, Message};
use crate::outside::{box_rest, canonicalize_json, hash_rest, key_rest, key_rest_len, sig_rest};

verus! {

/// What was wrong with an encoded message.
#[derive(Debug, Clone, Copy, PartialEq, Eq)]
pub enum Malformed {
    /// The bytes end before the message does.
    Truncated,
    /// A byte other than the one the encoding has at that place.
    UnexpectedByte,
    /// A string that is not closed, or holds a byte that needs an escape.
    InvalidText,
    /// A sequence number or timestamp that is not a canonical number.
    InvalidNumber,
    /// An author that is not a whole public key identifier.
    InvalidAuthor,
    /// Plain content that is not canonical legacy JSON at indentation one.
    InvalidContent,
    /// The bytes read as a message but are not its canonical encoding.
    NonCanonical,
}

/// Why decoding failed.
#[derive(Debug, Clone, PartialEq, Eq)]
pub enum DecodeError {
    MalformedEncoding { detail: Malformed },
}

fn malformed(detail: Malformed) -> DecodeError {
    DecodeError::MalformedEncoding { detail }
}

/// Whether `t` stands in `s` at `pos`.
fn matches_at(s: &[u8], pos: usize, t: &[u8]) -> (r: bool)
    requires
        pos <= s@.len(),
    ensures
        r == (pos + t@.len() <= s@.len() && s@.subrange(pos as int, pos + t@.len()) == t@),
{
    if t.len() > s.len() - pos {
        return false;
    }
    let mut i: usize = 0;
    while i < t.len()
        invariant
            pos + t@.len() <= s@.len(),
            s@.len() <= usize::MAX,
            i <= t@.len(),
            forall|j: int| 0 <= j < i ==> s@[pos + j] == t@[j],
        decreases t@.len() - i,
    {
        let k: usize = pos + i;
        if s[k] != t[i] {
            assert(s@.subrange(pos as int, pos + t@.len())[i as int] != t@[i as int]);
            return false;
        }
        i = i + 1;
    }
    assert(s@.subrange(pos as int, pos + t@.len()) =~= t@);
    true
}

/// Whether the ASCII text `lit` stands in `s` at `pos`.
fn literal_at(s: &[u8], pos: usize, lit: &str) -> (r: bool)
    requires
        pos <= s@.len(),
        is_ascii(lit),
    ensures
        r == (pos + lit@.len() <= s@.len() && s@.subrange(pos as int, pos + lit@.len()) == ascii(
            lit@,
        )),
{
    proof {
        is_ascii_spec_bytes(lit);
        assert(lit.spec_bytes() == ascii(lit@));
    }
    matches_at(s, pos, lit.as_bytes())
}

/// Reads a literal, or fails.
fn expect(s: &[u8], pos: usize, lit: &str) -> (r: Result<usize, DecodeError>)
    requires
        pos <= s@.len(),
        is_ascii(lit),
    ensures
        r matches Ok(e) ==> e == pos + lit@.len() && e <= s@.len() && s@.subrange(pos as int, e as int)
            == ascii(lit@),
        r is Ok <== (pos + lit@.len() <= s@.len() && s@.subrange(pos as int, pos + lit@.len())
            == ascii(lit@)),
{
    proof {
        is_ascii_spec_bytes(lit);
        assert(lit.spec_bytes().len() == lit@.len());
    }
    let n = lit.as_bytes().len();
    let len = s.len();
    if literal_at(s, pos, lit) {
        assert(pos + n <= len);
        Ok(pos + n)
    } else {
        Err(malformed(Malformed::UnexpectedByte))
    }
}

/// `s` holds `x` at `pos`, and `y` after it.
pub open spec fn begins(s: Seq<u8>, pos: int, x: Seq<u8>, y: Seq<u8>) -> bool {
    0 <= pos <= s.len() && s.skip(pos) == x + y
}

proof fn lemma_begins(s: Seq<u8>, pos: int, x: Seq<u8>, y: Seq<u8>)
    requires
        begins(s, pos, x, y),
    ensures
        pos + x.len() <= s.len(),
        s.subrange(pos, pos + x.len()) == x,
        s.skip(pos + x.len()) == y,
        forall|i: int| 0 <= i < x.len() ==> s[pos + i] == x[i],
        forall|i: int| 0 <= i < y.len() ==> s[pos + x.len() + i] == y[i],
{
    assert(s.skip(pos).len() == x.len() + y.len());
    assert forall|i: int| 0 <= i < x.len() implies s[pos + i] == x[i] by {
        assert(s.skip(pos)[i] == (x + y)[i]);
    }
    assert forall|i: int| 0 <= i < y.len() implies s[pos + x.len() + i] == y[i] by {
        assert(s.skip(pos)[x.len() + i] == (x + y)[x.len() + i]);
    }
    assert(s.subrange(pos, pos + x.len()) =~= x);
    assert(s.skip(pos + x.len()) =~= y);
}

/// Reads a string of bytes that need no escape, between quotes.
fn read_quoted(s: &[u8], pos: usize) -> (r: Result<(Vec<u8>, usize), DecodeError>)
    requires
        pos <= s@.len(),
    ensures
        r matches Ok((t, e)) ==> pos < e <= s@.len() && is_text(t@) && s@.subrange(pos as int, e as int)
            == seq![0x22u8] + t@ + seq![0x22u8],
        forall|t: Seq<u8>, y: Seq<u8>|
            #[trigger] begins(s@, pos as int, quoted(t), y) && is_text(t) ==> (r matches Ok((t2, e))
                && t2@ == t && e == pos + t.len() + 2),
{
    proof {
        assert forall|t: Seq<u8>, y: Seq<u8>|
            #[trigger] begins(s@, pos as int, quoted(t), y) && is_text(t) implies pos < s@.len()
                && s@[pos as int] == 0x22 && pos + t.len() + 2 <= s@.len() && s@[pos + 1 + t.len()]
                == 0x22 && forall|j: int| pos + 1 <= j < pos + 1 + t.len() ==> is_text_byte(s@[j]) by {
            lemma_begins(s@, pos as int, quoted(t), y);
            assert(quoted(t)[0] == 0x22);
            assert(quoted(t)[t.len() as int + 1] == 0x22);
            assert forall|j: int| pos + 1 <= j < pos + 1 + t.len() implies is_text_byte(s@[j]) by {
                assert(quoted(t)[j - pos] == t[j - pos - 1]);
            }
        }
    }
    if pos >= s.len() {
        return Err(malformed(Malformed::Truncated));
    }
    if s[pos] != 0x22 {
        return Err(malformed(Malformed::UnexpectedByte));
    }
    let start = pos + 1;
    let mut i: usize = start;
    while i < s.len() && is_text_byte_exec(s[i])
        invariant
            start <= i <= s@.len(),
            forall|j: int| start <= j < i ==> is_text_byte(#[trigger] s@[j]),
        decreases s@.len() - i,
    {
        i = i + 1;
    }
    proof {
        assert forall|t: Seq<u8>, y: Seq<u8>|
            #[trigger] begins(s@, pos as int, quoted(t), y) && is_text(t) implies i == start
                + t.len() by {
            if i < start + t.len() {
                assert(is_text_byte(s@[i as int]));
            }
            if i > start + t.len() {
                assert(is_text_byte(s@[start + t.len()]));
            }
        }
    }
    if i >= s.len() {
        return Err(malformed(Malformed::Truncated));
    }
    if s[i] != 0x22 {
        return Err(malformed(Malformed::InvalidText));
    }
    let t = slice_to_vec(slice_subrange(s, start, i));
    assert(s@.subrange(pos as int, i + 1) =~= seq![0x22u8] + t@ + seq![0x22u8]);
    proof {
        assert forall|tt: Seq<u8>, y: Seq<u8>|
            #[trigger] begins(s@, pos as int, quoted(tt), y) && is_text(tt) implies t@ == tt by {
            lemma_begins(s@, pos as int, quoted(tt), y);
            assert forall|j: int| 0 <= j < tt.len() implies t@[j] == tt[j] by {
                assert(quoted(tt)[j + 1] == tt[j]);
            }
            assert(t@ =~= tt);
        }
    }
    Ok((t, i + 1))
}

fn is_text_byte_exec(b: u8) -> (r: bool)
    ensures
        r == is_text_byte(b),
{
    0x20 <= b && b != 0x22 && b != 0x5c
}

fn is_number_byte_exec(b: u8) -> (r: bool)
    ensures
        r == is_number_byte(b),
{
    (0x30 <= b && b <= 0x39) || b == 0x2d || b == 0x2b || b == 0x2e || b == 0x45 || b == 0x65
}

/// Reads the run of number bytes at `pos`: a rendered timestamp.
fn read_number_text(s: &[u8], pos: usize) -> (r: Result<(Vec<u8>, usize), DecodeError>)
    requires
        pos <= s@.len(),
    ensures
        r matches Ok((t, e)) ==> e <= s@.len() && is_number_text(t@) && s@.subrange(
            pos as int,
            e as int,
        ) == t@,
        forall|t: Seq<u8>, y: Seq<u8>|
            #[trigger] begins(s@, pos as int, t, y) && is_number_text(t) && y.len() > 0
                && !is_number_byte(y[0]) ==> (r matches Ok((t2, e)) && t2@ == t && e == pos + t.len()),
{
    let mut i: usize = pos;
    while i < s.len() && is_number_byte_exec(s[i])
        invariant
            pos <= i <= s@.len(),
            forall|j: int| pos <= j < i ==> is_number_byte(#[trigger] s@[j]),
        decreases s@.len() - i,
    {
        i = i + 1;
    }
    proof {
        assert forall|t: Seq<u8>, y: Seq<u8>|
            #[trigger] begins(s@, pos as int, t, y) && is_number_text(t) && y.len() > 0
                && !is_number_byte(y[0]) implies i == pos + t.len() by {
            lemma_begins(s@, pos as int, t, y);
            if i < pos + t.len() {
                assert(is_number_byte(t[i - pos]));
            }
            if i > pos + t.len() {
                assert(s@[pos + t.len() + 0] == y[0]);
                assert(is_number_byte(s@[pos + t.len()]));
            }
        }
    }
    if i == pos {
        return Err(malformed(Malformed::InvalidNumber));
    }
    let t = slice_to_vec(slice_subrange(s, pos, i));
    assert(forall|j: int| 0 <= j < t@.len() ==> t@[j] == s@[pos + j]);
    proof {
        assert forall|tt: Seq<u8>, y: Seq<u8>|
            #[trigger] begins(s@, pos as int, tt, y) && is_number_text(tt) && y.len() > 0
                && !is_number_byte(y[0]) implies t@ == tt by {
            lemma_begins(s@, pos as int, tt, y);
        }
    }
    Ok((t, i))
}

pub open spec fn is_digit(b: u8) -> bool {
    0x30 <= b && b <= 0x39
}

/// The number that a run of decimal digits denotes.
pub open spec fn digits_value(d: Seq<u8>) -> nat
    decreases d.len(),
{
    if d.len() == 0 {
        0
    } else {
        digits_value(d.drop_last()) * 10 + (d.last() - 0x30) as nat
    }
}

proof fn lemma_decimal(n: nat)
    ensures
        decimal(n).len() > 0,
        forall|i: int| 0 <= i < decimal(n).len() ==> is_digit(#[trigger] decimal(n)[i]),
        digits_value(decimal(n)) == n,
    decreases n,
{
    if n >= 10 {
        lemma_decimal(n / 10);
        let d = decimal(n / 10);
        assert(decimal(n).drop_last() =~= d);
        assert(decimal(n).last() == (0x30 + n % 10) as u8);
        assert(n == (n / 10) * 10 + n % 10);
        assert(((0x30 + n % 10) as u8) as int == 0x30 + n % 10);
        assert(digits_value(decimal(n)) == digits_value(d) * 10 + (decimal(n).last() - 0x30) as nat);
        assert forall|i: int| 0 <= i < decimal(n).len() implies is_digit(#[trigger] decimal(n)[i]) by {
            if i < d.len() {
                assert(decimal(n)[i] == d[i]);
            }
        }
    } else {
        assert(decimal(n).drop_last() =~= Seq::<u8>::empty());
        assert(((0x30 + n) as u8) as int == 0x30 + n);
        assert(digits_value(decimal(n)) == digits_value(decimal(n).drop_last()) * 10 + (
        decimal(n).last() - 0x30) as nat);
    }
}

proof fn lemma_prefix_value(d: Seq<u8>, k: int)
    requires
        0 <= k <= d.len(),
        forall|i: int| 0 <= i < d.len() ==> is_digit(#[trigger] d[i]),
    ensures
        digits_value(d.take(k)) <= digits_value(d),
    decreases d.len() - k,
{
    if k < d.len() {
        lemma_prefix_value(d, k + 1);
        assert(d.take(k + 1).drop_last() =~= d.take(k));
        assert(is_digit(d[k]));
    } else {
        assert(d.take(k) =~= d);
    }
}

/// Reads the run of digits at `pos` as a sequence number.
fn read_sequence(s: &[u8], pos: usize) -> (r: Result<(u64, usize), DecodeError>)
    requires
        pos <= s@.len(),
    ensures
        r matches Ok((n, e)) ==> pos <= e <= s@.len(),
        forall|n: u64, y: Seq<u8>|
            #[trigger] begins(s@, pos as int, decimal(n as nat), y) && y.len() > 0 && !is_digit(y[0])
                ==> r == Ok::<(u64, usize), DecodeError>((n, (pos + decimal(n as nat).len()) as usize)),
{
    let mut i: usize = pos;
    let mut n: u64 = 0;
    proof {
        assert(s@.subrange(pos as int, pos as int) =~= Seq::<u8>::empty());
    }
    while i < s.len() && 0x30 <= s[i] && s[i] <= 0x39
        invariant
            pos <= i <= s@.len(),
            forall|j: int| pos <= j < i ==> is_digit(#[trigger] s@[j]),
            n == digits_value(s@.subrange(pos as int, i as int)),
            forall|nn: u64, y: Seq<u8>|
                #[trigger] begins(s@, pos as int, decimal(nn as nat), y) && y.len() > 0 && !is_digit(
                    y[0],
                ) ==> i <= pos + decimal(nn as nat).len(),
        decreases s@.len() - i,
    {
        let d = (s[i] - 0x30) as u64;
        proof {
            assert(s@.subrange(pos as int, i + 1).drop_last() =~= s@.subrange(pos as int, i as int));
        }
        let ghost next = s@.subrange(pos as int, i + 1);
        assert(digits_value(next) == n * 10 + d);
        proof {
            assert forall|nn: u64, y: Seq<u8>|
                #[trigger] begins(s@, pos as int, decimal(nn as nat), y) && y.len() > 0 && !is_digit(
                    y[0],
                ) implies n * 10 + d <= nn && i + 1 <= pos + decimal(nn as nat).len() by {
                lemma_begins(s@, pos as int, decimal(nn as nat), y);
                lemma_decimal(nn as nat);
                let dn = decimal(nn as nat);
                if i == pos + dn.len() {
                    assert(s@[pos + dn.len() + 0] == y[0]);
                }
                assert(dn.take(i + 1 - pos) =~= next);
                lemma_prefix_value(dn, i + 1 - pos);
            }
        }
        if n > (u64::MAX - d) / 10 {
            proof {
                assert forall|nn: u64, y: Seq<u8>|
                    #[trigger] begins(s@, pos as int, decimal(nn as nat), y) && y.len() > 0
                        && !is_digit(y[0]) implies false by {
                    assert(n * 10 + d <= nn);
                    assert(n * 10 + d <= u64::MAX);
                    assert(n <= (u64::MAX - d) / 10) by (nonlinear_arith)
                        requires
                            n * 10 + d <= u64::MAX,
                            d <= 9,
                    ;
                }
            }
            return Err(malformed(Malformed::InvalidNumber));
        }
        assert(n * 10 + d <= u64::MAX) by (nonlinear_arith)
            requires
                n <= (u64::MAX - d) / 10,
                d <= 9,
        ;
        n = n * 10 + d;
        i = i + 1;
    }
    proof {
        assert forall|nn: u64, y: Seq<u8>|
            #[trigger] begins(s@, pos as int, decimal(nn as nat), y) && y.len() > 0 && !is_digit(
                y[0],
            ) implies i == pos + decimal(nn as nat).len() && n == nn by {
            lemma_begins(s@, pos as int, decimal(nn as nat), y);
            lemma_decimal(nn as nat);
            let dn = decimal(nn as nat);
            if i < pos + dn.len() {
                assert(is_digit(dn[i - pos]));
            }
            assert(s@.subrange(pos as int, i as int) =~= dn);
        }
    }
    if i == pos {
        proof {
            assert forall|nn: u64, y: Seq<u8>|
                #[trigger] begins(s@, pos as int, decimal(nn as nat), y) && y.len() > 0
                    && !is_digit(y[0]) implies false by {
                lemma_decimal(nn as nat);
            }
        }
        return Err(malformed(Malformed::InvalidNumber));
    }
    Ok((n, i))
}

/// How many opening brackets `s` holds.
fn count_openers(s: &[u8]) -> (r: usize)
    ensures
        r == openers(s@),
{
    let mut i: usize = 0;
    let mut n: usize = 0;
    while i < s.len()
        invariant
            i <= s@.len(),
            n <= i,
            n == openers(s@.take(i as int)),
        decreases s@.len() - i,
    {
        proof {
            assert(s@.take(i + 1).drop_last() =~= s@.take(i as int));
        }
        if s[i] == 0x5b || s[i] == 0x7b {
            n = n + 1;
        }
        i = i + 1;
    }
    assert(s@.take(i as int) =~= s@);
    n
}

/// Whether a payload is framed.
fn check_framed(p: &[u8]) -> (r: bool)
    ensures
        r == is_framed(p@),
{
    if p.len() == 0 {
        return false;
    }
    let mut i: usize = 0;
    while i < p.len()
        invariant
            i <= p@.len(),
            forall|j: int|
                0 <= j < i && #[trigger] p@[j] == 0x0a ==> j + 3 < p@.len() && p@[j + 1] == 0x20
                    && p@[j + 2] == 0x20 && p@[j + 3] != 0x22,
        decreases p@.len() - i,
    {
        if p[i] == 0x0a {
            if !(p.len() - i > 3 && p[i + 1] == 0x20 && p[i + 2] == 0x20 && p[i + 3] != 0x22) {
                return false;
            }
        }
        i = i + 1;
    }
    true
}

/// `s` holds, at `j`, what follows the content: the closing line of the
/// message or its signature entry.
pub open spec fn ends_content_at(s: Seq<u8>, j: int) -> bool {
    ||| j + "\n}"@.len() <= s.len() && s.subrange(j, j + "\n}"@.len()) == ascii("\n}"@)
    ||| j + ",\n  \"signature\": "@.len() <= s.len() && s.subrange(
        j,
        j + ",\n  \"signature\": "@.len(),
    ) == ascii(",\n  \"signature\": "@)
}

/// `y` opens with what follows the content.
pub open spec fn opens_tail(y: Seq<u8>) -> bool {
    ||| "\n}"@.len() <= y.len() && y.take("\n}"@.len() as int) == ascii("\n}"@)
    ||| ",\n  \"signature\": "@.len() <= y.len() && y.take(",\n  \"signature\": "@.len() as int)
        == ascii(",\n  \"signature\": "@)
}

/// The first place at or after `pos` where the content ends: the closing
/// line of the message, or the signature entry.
fn content_end(s: &[u8], pos: usize) -> (r: Result<usize, DecodeError>)
    requires
        pos <= s@.len(),
    ensures
        r matches Ok(e) ==> pos <= e <= s@.len() && ends_content_at(s@, e as int),
        forall|j: int|
            pos <= j < s@.len() && #[trigger] ends_content_at(s@, j) ==> (r matches Ok(e) && e <= j),
{
    let mut i: usize = pos;
    while i < s.len()
        invariant
            pos <= i <= s@.len(),
            forall|j: int| pos <= j < i ==> !#[trigger] ends_content_at(s@, j),
        decreases s@.len() - i,
    {
        proof {
            reveal_strlit("\n}");
            reveal_strlit(",\n  \"signature\": ");
        }
        if literal_at(s, i, "\n}") || literal_at(s, i, ",\n  \"signature\": ") {
            return Ok(i);
        }
        i = i + 1;
    }
    Err(malformed(Malformed::Truncated))
}

/// Reads the content value at `pos`: a quoted box text, or a plain payload.
fn read_content(s: &[u8], pos: usize) -> (r: Result<(Content<Vec<u8>>, usize), DecodeError>)
    requires
        pos <= s@.len(),
    ensures
        r matches Ok((c, e)) ==> pos <= e <= s@.len() && content_well_formed(c) && s@.subrange(
            pos as int,
            e as int,
        ) == content_value(c),
        forall|c: Content<Vec<u8>>, y: Seq<u8>|
            #[trigger] begins(s@, pos as int, content_value(c), y) && content_well_formed(c)
                && opens_tail(y) ==> (r matches Ok((c2, e)) && content_view(c2) == content_view(c)
                && e == pos + content_value(c).len()),
{
    if pos < s.len() && s[pos] == 0x22 {
        proof {
            assert forall|c: Content<Vec<u8>>, y: Seq<u8>|
                #[trigger] begins(s@, pos as int, content_value(c), y) && content_well_formed(c)
                    && opens_tail(y) implies c is Encrypted by {
                lemma_begins(s@, pos as int, content_value(c), y);
                if let Content::Plain(p) = c {
                    assert(s@[pos + 0] == p@[0]);
                }
            }
        }
        let res = read_quoted(s, pos);
        proof {
            assert forall|c: Content<Vec<u8>>, y: Seq<u8>|
                #[trigger] begins(s@, pos as int, content_value(c), y) && content_well_formed(c)
                    && opens_tail(y) implies (res matches Ok((t2, e)) && (true, t2@) == content_view(
                    c,
                ) && e == pos + content_value(c).len()) by {
                if let Content::Encrypted(b) = c {
                    assert(begins(s@, pos as int, quoted(b@), y));
                }
            }
        }
        let (b, e) = res?;
        if box_rest(b.as_slice()) != Some(0usize) {
            return Err(malformed(Malformed::InvalidContent));
        }
        return Ok((Content::Encrypted(b), e));
    }
    proof {
        reveal_strlit("\n}");
        reveal_strlit(",\n  \"signature\": ");
        assert forall|c: Content<Vec<u8>>, y: Seq<u8>|
            #[trigger] begins(s@, pos as int, content_value(c), y) && content_well_formed(c)
                && opens_tail(y) implies (c is Plain && pos + content_value(c).len() < s@.len()
                && ends_content_at(s@, pos + content_value(c).len()) && forall|j: int|
                pos <= j < pos + content_value(c).len() ==> !#[trigger] ends_content_at(s@, j)) by {
            lemma_begins(s@, pos as int, content_value(c), y);
            if let Content::Encrypted(b) = c {
                assert(s@[pos + 0] == quoted(b@)[0]);
            }
            let p = content_value(c);
            let n = p.len() as int;
            assert(s@[pos + n + 0] == y[0]);
            assert(s@[pos + n + 1] == y[1]);
            if "\n}"@.len() <= y.len() && y.take("\n}"@.len() as int) == ascii("\n}"@) {
                assert(s@.subrange(pos + n, pos + n + 2) =~= y.take(2));
            } else {
                assert(s@.subrange(pos + n, pos + n + 17) =~= y.take(17));
            }
            assert forall|j: int| pos <= j < pos + n implies !#[trigger] ends_content_at(s@, j) by {
                let k = j - pos;
                assert(s@[j] == p[k]);
                if j + 2 <= s@.len() && s@.subrange(j, j + 2) == ascii("\n}"@) {
                    assert(s@.subrange(j, j + 2)[0] == s@[j]);
                    assert(s@.subrange(j, j + 2)[1] == s@[j + 1]);
                    assert(p[k] == 0x0a);
                    assert(s@[j + 1] == p[k + 1]);
                }
                if j + 17 <= s@.len() && s@.subrange(j, j + 17) == ascii(",\n  \"signature\": "@) {
                    assert(s@.subrange(j, j + 17)[1] == s@[j + 1]);
                    assert(s@.subrange(j, j + 17)[2] == s@[j + 2]);
                    assert(s@.subrange(j, j + 17)[4] == s@[j + 4]);
                    if k + 1 < n {
                        assert(s@[j + 1] == p[k + 1]);
                        assert(s@[j + 4] == p[k + 4]);
                    } else {
                        assert(s@[j + 1] == y[0]);
                        assert(s@[j + 2] == y[1]);
                    }
                }
            }
        }
    }
    let e = content_end(s, pos)?;
    let p = slice_subrange(s, pos, e);
    proof {
        assert forall|c: Content<Vec<u8>>, y: Seq<u8>|
            #[trigger] begins(s@, pos as int, content_value(c), y) && content_well_formed(c)
                && opens_tail(y) implies e == pos + content_value(c).len() && content_view(c) == (
            false,
            p@,
        ) by {
            let n = content_value(c).len() as int;
            assert(ends_content_at(s@, pos + n));
            if e < pos + n {
                assert(!ends_content_at(s@, e as int));
            }
            lemma_begins(s@, pos as int, content_value(c), y);
        }
    }
    if !check_framed(p) || count_openers(p) > MAX_JSON_OPENERS {
        return Err(malformed(Malformed::InvalidContent));
    }
    match canonicalize_json(p) {
        Some(c) => {
            if c.len() == p.len() && matches_at(p, 0, c.as_slice()) {
                assert(p@.subrange(0, c@.len() as int) =~= p@);
                Ok((Content::Plain(slice_to_vec(p)), e))
            } else {
                proof {
                    assert forall|cc: Content<Vec<u8>>, y: Seq<u8>|
                        #[trigger] begins(s@, pos as int, content_value(cc), y)
                            && content_well_formed(cc) && opens_tail(y) implies false by {
                        assert(p@.subrange(0, c@.len() as int) =~= p@);
                    }
                }
                Err(malformed(Malformed::InvalidContent))
            }
        },
        None => Err(malformed(Malformed::InvalidContent)),
    }
}

/// The encoding of `m` followed by `t` is all of `s`, and `m` is well formed.
pub open spec fn decodes_from(s: Seq<u8>, m: Message<Vec<u8>>, t: Seq<u8>) -> bool {
    well_formed(m) && s == encoding(m) + t
}

/// What follows the content in an encoding: the signature entry, if any,
/// and the closing line.
pub open spec fn closing(m: Message<Vec<u8>>) -> Seq<u8> {
    match m.signature {
        None => ascii("\n}"@),
        Some(g) => ascii(",\n  \"signature\": "@) + (quoted(g@) + ascii("\n}"@)),
    }
}

spec fn from_hash(m: Message<Vec<u8>>, t: Seq<u8>) -> Seq<u8> {
    ascii(",\n  \"hash\": \"sha256\",\n  \"content\": "@) + (content_value(m.content) + (closing(m)
        + t))
}

spec fn from_author(m: Message<Vec<u8>>, t: Seq<u8>) -> Seq<u8> {
    quoted(m.author@) + (counters(m) + from_hash(m, t))
}

spec fn from_previous(m: Message<Vec<u8>>, t: Seq<u8>) -> Seq<u8> {
    previous_value(m.previous) + (ascii(",\n  \"author\": "@) + from_author(m, t))
}

proof fn lemma_layout(m: Message<Vec<u8>>, t: Seq<u8>)
    ensures
        encoding(m) + t == ascii("{\n  \"previous\": "@) + from_previous(m, t),
{
    let l0 = ascii("{\n  \"previous\": "@);
    let l1 = ascii(",\n  \"author\": "@);
    let l2 = ascii(",\n  \"hash\": \"sha256\",\n  \"content\": "@);
    let pv = previous_value(m.previous);
    let qa = quoted(m.author@);
    let c = counters(m);
    let cv = content_value(m.content);
    assert(entries(m) == l0 + pv + l1 + qa + c + l2 + cv);
    match m.signature {
        None => {
            assert(encoding(m) + t =~= l0 + (pv + (l1 + (qa + (c + (l2 + (cv + (closing(m) + t))))))));
        },
        Some(g) => {
            assert(encoding(m) == entries(m) + ascii(",\n  \"signature\": "@) + quoted(g@) + ascii(
                "\n}"@,
            ));
            assert(encoding(m) + t =~= l0 + (pv + (l1 + (qa + (c + (l2 + (cv + (closing(m) + t))))))));
        },
    }
}

proof fn lemma_split_key()
    ensures
        ascii(",\n  \"sequence\": "@) == ascii(",\n  \""@) + ascii("sequence\": "@),
        ascii(",\n  \"timestamp\": "@) == ascii(",\n  \""@) + ascii("timestamp\": "@),
{
    reveal_strlit(",\n  \"sequence\": ");
    reveal_strlit(",\n  \"timestamp\": ");
    reveal_strlit(",\n  \"");
    reveal_strlit("sequence\": ");
    reveal_strlit("timestamp\": ");
    assert(ascii(",\n  \"sequence\": "@) =~= ascii(",\n  \""@) + ascii("sequence\": "@));
    assert(ascii(",\n  \"timestamp\": "@) =~= ascii(",\n  \""@) + ascii("timestamp\": "@));
}

proof fn lemma_same_encoding(a: Message<Vec<u8>>, b: Message<Vec<u8>>)
    requires
        same_message(a, b),
    ensures
        encoding(a) == encoding(b),
{
    assert(previous_value(a.previous) == previous_value(b.previous));
    assert(content_value(a.content) == content_value(b.content));
    assert(counters(a) == counters(b));
    assert(entries(a) == entries(b));
}

/// Reads the entries up to the author.
#[verifier::rlimit(50)]
fn read_head(s: &[u8]) -> (r: Result<(Option<Vec<u8>>, Vec<u8>, usize), DecodeError>)
    ensures
        r matches Ok((p, a, e)) ==> e <= s@.len() && (p matches Some(h) ==> is_text(h@)) && is_text(
            a@,
        ) && key_rest_len(a@) == Some(0nat),
        forall|m: Message<Vec<u8>>, t: Seq<u8>|
            #[trigger] decodes_from(s@, m, t) ==> (r matches Ok((p, a, e)) && opt_view(p) == opt_view(
                m.previous,
            ) && a@ == m.author@ && begins(s@, e as int, counters(m), from_hash(m, t))),
{
    proof {
        reveal_strlit("{\n  \"previous\": ");
        reveal_strlit("null");
        reveal_strlit(",\n  \"author\": ");
        reveal_strlit(",\n  \"");
        reveal_strlit("sequence\": ");
        reveal_strlit("timestamp\": ");
        reveal_strlit(",\n  \"hash\": \"sha256\",\n  \"content\": ");
        reveal_strlit("\n}");
        reveal_strlit(",\n  \"signature\": ");
        lemma_split_key();
        assert forall|m: Message<Vec<u8>>, t: Seq<u8>| #[trigger]
            decodes_from(s@, m, t) implies begins(
            s@,
            0,
            ascii("{\n  \"previous\": "@),
            from_previous(m, t),
        ) by {
            lemma_layout(m, t);
            assert(s@.skip(0) =~= s@);
        }
    }
    let res = expect(s, 0, "{\n  \"previous\": ");
    proof {
        assert forall|m: Message<Vec<u8>>, t: Seq<u8>| #[trigger]
            decodes_from(s@, m, t) implies res is Ok by {
            lemma_begins(s@, 0, ascii("{\n  \"previous\": "@), from_previous(m, t));
        }
    }
    let mut pos = res?;
    let ghost p0: int = pos as int;
    proof {
        assert forall|m: Message<Vec<u8>>, t: Seq<u8>| #[trigger]
            decodes_from(s@, m, t) implies begins(
            s@,
            pos as int,
            previous_value(m.previous),
            ascii(",\n  \"author\": "@) + from_author(m, t),
        ) by {
            lemma_begins(s@, 0, ascii("{\n  \"previous\": "@), from_previous(m, t));
        }
    }
    let null = expect(s, pos, "null");
    let previous = if let Ok(e) = null {
        proof {
            assert forall|m: Message<Vec<u8>>, t: Seq<u8>| #[trigger]
                decodes_from(s@, m, t) implies m.previous is None && begins(
                s@,
                e as int,
                ascii(",\n  \"author\": "@),
                from_author(m, t),
            ) by {
                let y = ascii(",\n  \"author\": "@) + from_author(m, t);
                lemma_begins(s@, p0, previous_value(m.previous), y);
                if let Some(h) = m.previous {
                    assert(s@[p0 + 0] == quoted(h@)[0]);
                    assert(s@.subrange(p0, p0 + 4)[0] == s@[p0 + 0]);
                }
            }
        }
        pos = e;
        None
    } else {
        let res = read_quoted(s, pos);
        proof {
            assert forall|m: Message<Vec<u8>>, t: Seq<u8>| #[trigger]
                decodes_from(s@, m, t) implies res matches Ok((h, e)) && Some(h@) == opt_view(
                m.previous,
            ) && begins(s@, e as int, ascii(",\n  \"author\": "@), from_author(m, t)) by {
                let y = ascii(",\n  \"author\": "@) + from_author(m, t);
                lemma_begins(s@, p0, previous_value(m.previous), y);
                if let Some(h) = m.previous {
                    assert(begins(s@, p0, quoted(h@), y));
                }
            }
        }
        let (h, e) = res?;
        pos = e;
        Some(h)
    };
    let ghost p1: int = pos as int;
    let res = expect(s, pos, ",\n  \"author\": ");
    proof {
        assert forall|m: Message<Vec<u8>>, t: Seq<u8>| #[trigger]
            decodes_from(s@, m, t) implies res matches Ok(e) && begins(
            s@,
            e as int,
            quoted(m.author@),
            counters(m) + from_hash(m, t),
        ) by {
            lemma_begins(s@, p1, ascii(",\n  \"author\": "@), from_author(m, t));
        }
    }
    pos = res?;
    let res = read_quoted(s, pos);
    proof {
        assert forall|m: Message<Vec<u8>>, t: Seq<u8>| #[trigger]
            decodes_from(s@, m, t) implies res matches Ok((a, e)) && a@ == m.author@ && begins(
            s@,
            e as int,
            counters(m),
            from_hash(m, t),
        ) by {
            lemma_begins(s@, pos as int, quoted(m.author@), counters(m) + from_hash(m, t));
        }
    }
    let (author, e) = res?;
    pos = e;
    let ghost p2: int = pos as int;
    if key_rest(author.as_slice()) != Some(0usize) {
        return Err(malformed(Malformed::InvalidAuthor));
    }
    Ok((previous, author, pos))
}

/// Reads the sequence number and the timestamp, in either order.
#[verifier::rlimit(100)]
fn read_counters(s: &[u8], pos: usize) -> (r: Result<(u64, Vec<u8>, bool, usize), DecodeError>)
    requires
        pos <= s@.len(),
        forall|m: Message<Vec<u8>>, t: Seq<u8>|
            #[trigger] decodes_from(s@, m, t) ==> begins(s@, pos as int, counters(m), from_hash(m, t)),
    ensures
        r matches Ok((n, ts, sw, e)) ==> e <= s@.len() && is_number_text(ts@),
        forall|m: Message<Vec<u8>>, t: Seq<u8>|
            #[trigger] decodes_from(s@, m, t) ==> (r matches Ok((n, ts, sw, e)) && n == m.sequence
                && ts@ == m.timestamp@ && sw == m.swapped && begins(
                s@,
                e as int,
                ascii(",\n  \"hash\": \"sha256\",\n  \"content\": "@),
                content_value(m.content) + (closing(m) + t),
            )),
{
    proof {
        reveal_strlit("{\n  \"previous\": ");
        reveal_strlit("null");
        reveal_strlit(",\n  \"author\": ");
        reveal_strlit(",\n  \"");
        reveal_strlit("sequence\": ");
        reveal_strlit("timestamp\": ");
        reveal_strlit(",\n  \"hash\": \"sha256\",\n  \"content\": ");
        reveal_strlit("\n}");
        reveal_strlit(",\n  \"signature\": ");
        lemma_split_key();
    }
    let mut pos = pos;
    let s_len = s.len();
    let ghost p2: int = pos as int;
    let res = expect(s, pos, ",\n  \"");
    proof {
        assert forall|m: Message<Vec<u8>>, t: Seq<u8>| #[trigger]
            decodes_from(s@, m, t) implies res matches Ok(e) && begins(
            s@,
            e as int,
            if m.swapped { ascii("timestamp\": "@) } else { ascii("sequence\": "@) },
            if m.swapped {
                m.timestamp@ + (ascii(",\n  \"sequence\": "@) + decimal(m.sequence as nat) + from_hash(m, t))
            } else {
                decimal(m.sequence as nat) + (ascii(",\n  \"timestamp\": "@) + m.timestamp@ + from_hash(m, t))
            },
        ) by {
            let l3 = ascii(",\n  \""@);
            let y = from_hash(m, t);
            if m.swapped {
                let rest = ascii("timestamp\": "@) + (m.timestamp@ + (ascii(",\n  \"sequence\": "@)
                    + decimal(m.sequence as nat) + y));
                assert(counters(m) + y =~= l3 + rest);
                lemma_begins(s@, p2, l3, rest);
            } else {
                let rest = ascii("sequence\": "@) + (decimal(m.sequence as nat) + (ascii(
                    ",\n  \"timestamp\": "@,
                ) + m.timestamp@ + y));
                assert(counters(m) + y =~= l3 + rest);
                lemma_begins(s@, p2, l3, rest);
            }
        }
    }
    pos = res?;
    let ghost p3: int = pos as int;
    let swapped = literal_at(s, pos, "timestamp\": ");
    proof {
        assert forall|m: Message<Vec<u8>>, t: Seq<u8>| #[trigger]
            decodes_from(s@, m, t) implies swapped == m.swapped by {
            let x = if m.swapped { ascii("timestamp\": "@) } else { ascii("sequence\": "@) };
            let y = if m.swapped {
                m.timestamp@ + (ascii(",\n  \"sequence\": "@) + decimal(m.sequence as nat) + from_hash(m, t))
            } else {
                decimal(m.sequence as nat) + (ascii(",\n  \"timestamp\": "@) + m.timestamp@ + from_hash(m, t))
            };
            lemma_begins(s@, p3, x, y);
            if !m.swapped && swapped {
                assert(s@[p3 + 0] == x[0]);
                assert(s@.subrange(p3, p3 + 12)[0] == s@[p3 + 0]);
            }
        }
    }
    let (sequence, timestamp) = if swapped {
        let res = expect(s, pos, "timestamp\": ");
        proof {
            assert forall|m: Message<Vec<u8>>, t: Seq<u8>| #[trigger]
                decodes_from(s@, m, t) implies res matches Ok(e) && begins(
                s@,
                e as int,
                m.timestamp@,
                ascii(",\n  \"sequence\": "@) + decimal(m.sequence as nat) + from_hash(m, t),
            ) by {
                lemma_begins(
                    s@,
                    p3,
                    ascii("timestamp\": "@),
                    m.timestamp@ + (ascii(",\n  \"sequence\": "@) + decimal(m.sequence as nat) + from_hash(m, t)),
                );
            }
        }
        pos = res?;
        let ghost p4: int = pos as int;
        let res = read_number_text(s, pos);
        proof {
            assert forall|m: Message<Vec<u8>>, t: Seq<u8>| #[trigger]
                decodes_from(s@, m, t) implies res matches Ok((ts, e)) && ts@ == m.timestamp@
                && begins(
                s@,
                e as int,
                ascii(",\n  \""@),
                ascii("sequence\": "@) + (decimal(m.sequence as nat) + from_hash(m, t)),
            ) by {
                let y = ascii(",\n  \"sequence\": "@) + decimal(m.sequence as nat) + from_hash(m, t);
                assert(y[0] == 0x2c);
                assert(begins(s@, p4, m.timestamp@, y));
                lemma_begins(s@, p4, m.timestamp@, y);
                assert(y =~= ascii(",\n  \""@) + (ascii("sequence\": "@) + (decimal(
                    m.sequence as nat,
                ) + from_hash(m, t))));
            }
        }
        let (ts, e) = res?;
        let ghost p5: int = e as int;
        let res = expect(s, e, ",\n  \"");
        proof {
            assert forall|m: Message<Vec<u8>>, t: Seq<u8>| #[trigger]
                decodes_from(s@, m, t) implies res matches Ok(e2) && begins(
                s@,
                e2 as int,
                ascii("sequence\": "@),
                decimal(m.sequence as nat) + from_hash(m, t),
            ) by {
                lemma_begins(
                    s@,
                    p5,
                    ascii(",\n  \""@),
                    ascii("sequence\": "@) + (decimal(m.sequence as nat) + from_hash(m, t)),
                );
            }
        }
        pos = res?;
        let ghost p6: int = pos as int;
        let res = expect(s, pos, "sequence\": ");
        proof {
            assert forall|m: Message<Vec<u8>>, t: Seq<u8>| #[trigger]
                decodes_from(s@, m, t) implies res matches Ok(e2) && begins(
                s@,
                e2 as int,
                decimal(m.sequence as nat),
                from_hash(m, t),
            ) by {
                lemma_begins(
                    s@,
                    p6,
                    ascii("sequence\": "@),
                    decimal(m.sequence as nat) + from_hash(m, t),
                );
            }
        }
        pos = res?;
        let res = read_sequence(s, pos);
        proof {
            assert forall|m: Message<Vec<u8>>, t: Seq<u8>| #[trigger]
                decodes_from(s@, m, t) implies res matches Ok((n, e2)) && n == m.sequence && begins(
                s@,
                e2 as int,
                ascii(",\n  \"hash\": \"sha256\",\n  \"content\": "@),
                content_value(m.content) + (closing(m) + t),
            ) by {
                let y = from_hash(m, t);
                assert(y[0] == 0x2c);
                assert(y.len() > 0);
                assert(begins(s@, pos as int, decimal(m.sequence as nat), y));
                lemma_begins(s@, pos as int, decimal(m.sequence as nat), y);
                let e3 = pos + decimal(m.sequence as nat).len();
                assert(res == Ok::<(u64, usize), DecodeError>((m.sequence, e3 as usize)));
                assert(e3 <= s_len);
                assert(e3 as usize as int == e3);
            }
        }
        let (n, e2) = res?;
        pos = e2;
        (n, ts)
    } else {
        let res = expect(s, pos, "sequence\": ");
        proof {
            assert forall|m: Message<Vec<u8>>, t: Seq<u8>| #[trigger]
                decodes_from(s@, m, t) implies res matches Ok(e) && begins(
                s@,
                e as int,
                decimal(m.sequence as nat),
                ascii(",\n  \"timestamp\": "@) + m.timestamp@ + from_hash(m, t),
            ) by {
                lemma_begins(
                    s@,
                    p3,
                    ascii("sequence\": "@),
                    decimal(m.sequence as nat) + (ascii(",\n  \"timestamp\": "@) + m.timestamp@ + from_hash(m, t)),
                );
            }
        }
        pos = res?;
        let ghost p4: int = pos as int;
        let res = read_sequence(s, pos);
        proof {
            assert forall|m: Message<Vec<u8>>, t: Seq<u8>| #[trigger]
                decodes_from(s@, m, t) implies res matches Ok((n, e)) && n == m.sequence && begins(
                s@,
                e as int,
                ascii(",\n  \""@),
                ascii("timestamp\": "@) + (m.timestamp@ + from_hash(m, t)),
            ) by {
                let y = ascii(",\n  \"timestamp\": "@) + m.timestamp@ + from_hash(m, t);
                assert(y[0] == 0x2c);
                assert(y.len() > 0);
                assert(y.len() > 0);
                assert(begins(s@, pos as int, decimal(m.sequence as nat), y));
                lemma_begins(s@, pos as int, decimal(m.sequence as nat), y);
                let e3 = pos + decimal(m.sequence as nat).len();
                assert(res == Ok::<(u64, usize), DecodeError>((m.sequence, e3 as usize)));
                assert(e3 <= s_len);
                assert(e3 as usize as int == e3);
                assert(y =~= ascii(",\n  \""@) + (ascii("timestamp\": "@) + (m.timestamp@ + from_hash(
                    m,
                    t,
                ))));
            }
        }
        let (n, e) = res?;
        let ghost p5: int = e as int;
        let res = expect(s, e, ",\n  \"");
        proof {
            assert forall|m: Message<Vec<u8>>, t: Seq<u8>| #[trigger]
                decodes_from(s@, m, t) implies res matches Ok(e2) && begins(
                s@,
                e2 as int,
                ascii("timestamp\": "@),
                m.timestamp@ + from_hash(m, t),
            ) by {
                lemma_begins(
                    s@,
                    p5,
                    ascii(",\n  \""@),
                    ascii("timestamp\": "@) + (m.timestamp@ + from_hash(m, t)),
                );
            }
        }
        pos = res?;
        let ghost p6: int = pos as int;
        let res = expect(s, pos, "timestamp\": ");
        proof {
            assert forall|m: Message<Vec<u8>>, t: Seq<u8>| #[trigger]
                decodes_from(s@, m, t) implies res matches Ok(e2) && begins(
                s@,
                e2 as int,
                m.timestamp@,
                from_hash(m, t),
            ) by {
                lemma_begins(s@, p6, ascii("timestamp\": "@), m.timestamp@ + from_hash(m, t));
            }
        }
        pos = res?;
        let res = read_number_text(s, pos);
        proof {
            assert forall|m: Message<Vec<u8>>, t: Seq<u8>| #[trigger]
                decodes_from(s@, m, t) implies res matches Ok((ts, e2)) && ts@ == m.timestamp@
                && begins(
                s@,
                e2 as int,
                ascii(",\n  \"hash\": \"sha256\",\n  \"content\": "@),
                content_value(m.content) + (closing(m) + t),
            ) by {
                let y = from_hash(m, t);
                assert(y[0] == 0x2c);
                lemma_begins(s@, pos as int, m.timestamp@, y);
            }
        }
        let (ts, e2) = res?;
        pos = e2;
        (n, ts)
    };
    Ok((sequence, timestamp, swapped, pos))
}

/// Reads the content and the signature entry, if any.
#[verifier::rlimit(50)]
fn read_tail(s: &[u8], pos: usize) -> (r: Result<(Content<Vec<u8>>, Option<Vec<u8>>), DecodeError>)
    requires
        pos <= s@.len(),
        forall|m: Message<Vec<u8>>, t: Seq<u8>|
            #[trigger] decodes_from(s@, m, t) ==> begins(
                s@,
                pos as int,
                ascii(",\n  \"hash\": \"sha256\",\n  \"content\": "@),
                content_value(m.content) + (closing(m) + t),
            ),
    ensures
        r matches Ok((c, g)) ==> content_well_formed(c) && (g matches Some(g) ==> is_text(g@)),
        forall|m: Message<Vec<u8>>, t: Seq<u8>|
            #[trigger] decodes_from(s@, m, t) ==> (r matches Ok((c, g)) && content_view(c)
                == content_view(m.content) && opt_view(g) == opt_view(m.signature)),
{
    proof {
        reveal_strlit("{\n  \"previous\": ");
        reveal_strlit("null");
        reveal_strlit(",\n  \"author\": ");
        reveal_strlit(",\n  \"");
        reveal_strlit("sequence\": ");
        reveal_strlit("timestamp\": ");
        reveal_strlit(",\n  \"hash\": \"sha256\",\n  \"content\": ");
        reveal_strlit("\n}");
        reveal_strlit(",\n  \"signature\": ");
        lemma_split_key();
    }
    let mut pos = pos;
    let ghost p7: int = pos as int;
    let res = expect(s, pos, ",\n  \"hash\": \"sha256\",\n  \"content\": ");
    proof {
        assert forall|m: Message<Vec<u8>>, t: Seq<u8>| #[trigger]
            decodes_from(s@, m, t) implies res matches Ok(e) && begins(
            s@,
            e as int,
            content_value(m.content),
            closing(m) + t,
        ) by {
            lemma_begins(
                s@,
                p7,
                ascii(",\n  \"hash\": \"sha256\",\n  \"content\": "@),
                content_value(m.content) + (closing(m) + t),
            );
        }
    }
    pos = res?;
    let res = read_content(s, pos);
    proof {
        assert forall|m: Message<Vec<u8>>, t: Seq<u8>| #[trigger]
            decodes_from(s@, m, t) implies res matches Ok((c, e)) && content_view(c)
            == content_view(m.content) && begins(s@, e as int, closing(m), t) by {
            let y = closing(m) + t;
            match m.signature {
                None => {
                    assert(y.take(2) =~= ascii("\n}"@));
                },
                Some(g) => {
                    assert(y.take(17) =~= ascii(",\n  \"signature\": "@));
                },
            }
            assert(opens_tail(y));
            assert(begins(s@, pos as int, content_value(m.content), y));
            lemma_begins(s@, pos as int, content_value(m.content), y);
        }
    }
    let (content, e) = res?;
    pos = e;
    let ghost p8: int = pos as int;
    let sig_entry = expect(s, pos, ",\n  \"signature\": ");
    let signature = if let Ok(e) = sig_entry {
        let res = read_quoted(s, e);
        proof {
            assert forall|m: Message<Vec<u8>>, t: Seq<u8>| #[trigger]
                decodes_from(s@, m, t) implies res matches Ok((g, _)) && Some(g@) == opt_view(
                m.signature,
            ) by {
                lemma_begins(s@, p8, closing(m), t);
                match m.signature {
                    None => {
                        assert(s@[p8 + 0] == closing(m)[0]);
                        assert(s@.subrange(p8, p8 + 17)[0] == s@[p8 + 0]);
                    },
                    Some(g) => {
                        assert(closing(m) + t =~= ascii(",\n  \"signature\": "@) + (quoted(g@) + (
                        ascii("\n}"@) + t)));
                        assert(begins(s@, p8, ascii(",\n  \"signature\": "@), quoted(g@) + (ascii("\n}"@) + t)));
                        lemma_begins(s@, p8, ascii(",\n  \"signature\": "@), quoted(g@) + (ascii("\n}"@) + t));
                        assert(begins(s@, e as int, quoted(g@), ascii("\n}"@) + t));
                    },
                }
            }
        }
        let (sig, _) = res?;
        Some(sig)
    } else {
        proof {
            assert forall|m: Message<Vec<u8>>, t: Seq<u8>| #[trigger]
                decodes_from(s@, m, t) implies m.signature is None by {
                lemma_begins(s@, p8, closing(m), t);
                if let Some(g) = m.signature {
                    assert(closing(m) + t =~= ascii(",\n  \"signature\": "@) + (quoted(g@) + (
                    ascii("\n}"@) + t)));
                    lemma_begins(s@, p8, ascii(",\n  \"signature\": "@), quoted(g@) + (ascii("\n}"@) + t));
                }
            }
        }
        None
    };
    Ok((content, signature))
}

/// Reads one message off the front of `s`, in its final encoding if it
/// carries a signature entry and in its signing encoding if not, and
/// returns it with the bytes that follow it. The message read is the one
/// whose encoding stands at the front of `s`: when a well-formed message's
/// encoding is followed by any bytes, that message and those bytes come
/// back.
pub fn decode(s: &[u8]) -> (r: Result<(Message<Vec<u8>>, Vec<u8>), DecodeError>)
    ensures
        r matches Ok((m, rest)) ==> well_formed(m) && s@ == encoding(m) + rest@,
        forall|m: Message<Vec<u8>>, t: Seq<u8>|
            #[trigger] decodes_from(s@, m, t) ==> (r matches Ok((m2, rest)) && same_message(m2, m)
                && rest@ == t),
{
    let (previous, author, pos) = read_head(s)?;
    let (sequence, timestamp, swapped, pos) = read_counters(s, pos)?;
    let (content, signature) = read_tail(s, pos)?;
    if let Some(h) = &previous {
        if hash_rest(h.as_slice()) != Some(0usize) {
            return Err(malformed(Malformed::InvalidText));
        }
    }
    if count_openers(timestamp.as_slice()) > MAX_JSON_OPENERS {
        return Err(malformed(Malformed::InvalidNumber));
    }
    match canonicalize_json(timestamp.as_slice()) {
        Some(c) => {
            if !(c.len() == timestamp.len() && matches_at(c.as_slice(), 0, timestamp.as_slice())) {
                proof {
                    assert forall|mm: Message<Vec<u8>>, t: Seq<u8>| #[trigger]
                        decodes_from(s@, mm, t) implies false by {
                        assert(c@ == timestamp@);
                        assert(c@.subrange(0, timestamp@.len() as int) =~= c@);
                    }
                }
                return Err(malformed(Malformed::InvalidNumber));
            }
            assert(c@.subrange(0, timestamp@.len() as int) =~= c@);
        },
        None => {
            return Err(malformed(Malformed::InvalidNumber));
        },
    }
    if let Some(g) = &signature {
        if sig_rest(author.as_slice(), g.as_slice()) != Some(0usize) {
            return Err(malformed(Malformed::InvalidText));
        }
    }
    let m = Message { previous, author, sequence, timestamp, content, swapped, signature };
    let bytes = encode(&m);
    proof {
        assert forall|mm: Message<Vec<u8>>, t: Seq<u8>| #[trigger]
            decodes_from(s@, mm, t) implies same_message(m, mm) && bytes@ == encoding(mm) by {
            lemma_same_encoding(m, mm);
        }
    }
    if !matches_at(s, 0, bytes.as_slice()) {
        proof {
            assert forall|mm: Message<Vec<u8>>, t: Seq<u8>| #[trigger]
                decodes_from(s@, mm, t) implies false by {
                assert(s@.subrange(0, bytes@.len() as int) =~= bytes@);
            }
        }
        return Err(malformed(Malformed::NonCanonical));
    }
    let rest = slice_to_vec(slice_subrange(s, bytes.len(), s.len()));
    assert(s@ =~= encoding(m) + rest@);
    proof {
        assert forall|mm: Message<Vec<u8>>, t: Seq<u8>| #[trigger]
            decodes_from(s@, mm, t) implies rest@ == t by {
            assert(rest@ =~= t);
        }
    }
    Ok((m, rest))
}

/// Encoding an unsigned well-formed message for signing and decoding the
/// bytes gives that message back with nothing left over: the signing
/// encoding alone is what `decode` reads as the message.
pub proof fn lemma_round_trip(m: Message<Vec<u8>>)
    requires
        well_formed(m),
        m.signature is None,
    ensures
        decodes_from(signing_encoding(m), m, Seq::<u8>::empty()),
{
    assert(signing_encoding(m) + Seq::<u8>::empty() =~= signing_encoding(m));
}

/// Where the entries after the author begin in an encoding.
pub open spec fn counters_offset(m: Message<Vec<u8>>) -> int {
    (ascii("{\n  \"previous\": "@) + previous_value(m.previous) + ascii(",\n  \"author\": "@) + quoted(
        m.author@,
    )).len() as int
}

/// The entry after the author is the timestamp exactly when the message is
/// swapped; otherwise it is the sequence number. So a message read from
/// bytes that put the timestamp first is swapped, and its encoding keeps
/// that order.
pub proof fn lemma_swapped_order(m: Message<Vec<u8>>)
    ensures
        encoding(m).subrange(
            counters_offset(m),
            counters_offset(m) + ",\n  \"timestamp\": "@.len(),
        ) == ascii(",\n  \"timestamp\": "@) <==> m.swapped,
        !m.swapped ==> encoding(m).subrange(
            counters_offset(m),
            counters_offset(m) + ",\n  \"sequence\": "@.len(),
        ) == ascii(",\n  \"sequence\": "@),
{
    reveal_strlit(",\n  \"timestamp\": ");
    reveal_strlit(",\n  \"sequence\": ");
    let k = counters_offset(m);
    let head = ascii("{\n  \"previous\": "@) + previous_value(m.previous) + ascii(",\n  \"author\": "@)
        + quoted(m.author@);
    let rest = counters(m) + ascii(",\n  \"hash\": \"sha256\",\n  \"content\": "@) + content_value(
        m.content,
    );
    let tail = match m.signature {
        None => ascii("\n}"@),
        Some(g) => ascii(",\n  \"signature\": "@) + quoted(g@) + ascii("\n}"@),
    };
    assert(encoding(m) =~= head + (rest + tail));
    let ts = ascii(",\n  \"timestamp\": "@);
    let sq = ascii(",\n  \"sequence\": "@);
    assert(k == head.len());
    if m.swapped {
        assert(rest + tail =~= ts + (m.timestamp@ + sq + decimal(m.sequence as nat) + ascii(
            ",\n  \"hash\": \"sha256\",\n  \"content\": "@,
        ) + content_value(m.content) + tail));
        assert(encoding(m).skip(k) =~= rest + tail);
        lemma_begins(encoding(m), k, ts, m.timestamp@ + sq + decimal(m.sequence as nat) + ascii(
            ",\n  \"hash\": \"sha256\",\n  \"content\": "@,
        ) + content_value(m.content) + tail);
    } else {
        let y = decimal(m.sequence as nat) + ts + m.timestamp@ + ascii(
            ",\n  \"hash\": \"sha256\",\n  \"content\": "@,
        ) + content_value(m.content) + tail;
        assert(rest + tail =~= sq + y);
        assert(encoding(m).skip(k) =~= sq + y);
        lemma_begins(encoding(m), k, sq, y);
        assert(encoding(m)[k + 5] == sq[5]);
        if k + ts.len() <= encoding(m).len() {
            assert(encoding(m).subrange(k, k + ts.len())[5] == encoding(m)[k + 5]);
        }
    }
}

} // verus!
