//! Byte-order marks, encoding detection, and strict decoding and encoding of
//! file contents. Decoded text is held as UTF-8 bytes.

use encoding::{DecoderTrap, EncoderTrap, Encoding};
use vstd::prelude::*;
use vstd::utf8::*;

verus! {

/// A byte-order mark found at the start of a file.
#[derive(Clone, Copy, Debug, PartialEq, Eq, Structural)]
pub enum Bom {
    Utf8,
    Utf16Le,
    Utf16Be,
}

/// The text encodings that files are decoded from and encoded back to.
#[derive(Clone, Copy, Debug, PartialEq, Eq, Structural)]
pub enum TextEncoding {
    Utf8,
    Utf16Le,
    Utf16Be,
}

/// What the user asked of the encoding: detect it, or use a fixed one where
/// the file has no byte-order mark.
#[derive(Clone, Copy, Debug, PartialEq, Eq, Structural)]
pub enum EncodingHint {
    Auto,
    Fixed(TextEncoding),
}

pub open spec fn bom_bytes(bom: Bom) -> Seq<u8> {
    match bom {
        Bom::Utf8 => seq![0xEFu8, 0xBBu8, 0xBFu8],
        Bom::Utf16Le => seq![0xFFu8, 0xFEu8],
        Bom::Utf16Be => seq![0xFEu8, 0xFFu8],
    }
}

impl Bom {
    /// The bytes of the mark.
    pub fn bytes(&self) -> (r: Vec<u8>)
        ensures
            r@ == bom_bytes(*self),
    {
        match self {
            Bom::Utf8 => vec![0xEFu8, 0xBBu8, 0xBFu8],
            Bom::Utf16Le => vec![0xFFu8, 0xFEu8],
            Bom::Utf16Be => vec![0xFEu8, 0xFFu8],
        }
    }

    pub fn len(&self) -> (r: usize)
        ensures
            r == bom_bytes(*self).len(),
    {
        match self {
            Bom::Utf8 => 3,
            _ => 2,
        }
    }
}

/// The mark that `b` starts with, if any.
pub open spec fn bom_of(b: Seq<u8>) -> Option<Bom> {
    if b.len() >= 3 && b[0] == 0xEF && b[1] == 0xBB && b[2] == 0xBF {
        Some(Bom::Utf8)
    } else if b.len() >= 2 && b[0] == 0xFF && b[1] == 0xFE {
        Some(Bom::Utf16Le)
    } else if b.len() >= 2 && b[0] == 0xFE && b[1] == 0xFF {
        Some(Bom::Utf16Be)
    } else {
        None
    }
}

pub open spec fn encoding_of_bom(bom: Bom) -> TextEncoding {
    match bom {
        Bom::Utf8 => TextEncoding::Utf8,
        Bom::Utf16Le => TextEncoding::Utf16Le,
        Bom::Utf16Be => TextEncoding::Utf16Be,
    }
}

/// The number of zero bytes among the first `n` bytes of `b` whose index has
/// the given parity.
pub open spec fn zeros_at_parity(b: Seq<u8>, parity: int, n: int) -> nat
    decreases n,
{
    if n <= 0 {
        0
    } else if (n - 1) % 2 == parity && b[n - 1] == 0 {
        zeros_at_parity(b, parity, n - 1) + 1
    } else {
        zeros_at_parity(b, parity, n - 1)
    }
}

/// The guess for bytes without a mark: UTF-16 where the bytes come in pairs,
/// one byte of every pair is never zero and the other is zero in at least
/// half of the pairs (the shape of mostly ASCII text); UTF-8 otherwise.
pub open spec fn sniffed(b: Seq<u8>) -> TextEncoding {
    let pairs = b.len() / 2;
    let even = zeros_at_parity(b, 0, b.len() as int);
    let odd = zeros_at_parity(b, 1, b.len() as int);
    if b.len() < 2 || b.len() % 2 != 0 {
        TextEncoding::Utf8
    } else if even == 0 && 2 * odd >= pairs {
        TextEncoding::Utf16Le
    } else if odd == 0 && 2 * even >= pairs {
        TextEncoding::Utf16Be
    } else {
        TextEncoding::Utf8
    }
}

/// The mark and the encoding of `b`: the mark decides where there is one,
/// then a fixed hint, then the byte pattern.
pub open spec fn detected(b: Seq<u8>, hint: EncodingHint) -> (Option<Bom>, TextEncoding) {
    match bom_of(b) {
        Some(bom) => (Some(bom), encoding_of_bom(bom)),
        None => match hint {
            EncodingHint::Fixed(e) => (None, e),
            EncodingHint::Auto => (None, sniffed(b)),
        },
    }
}

fn count_zeros(b: &[u8]) -> (r: (usize, usize))
    ensures
        r.0 == zeros_at_parity(b@, 0, b@.len() as int),
        r.1 == zeros_at_parity(b@, 1, b@.len() as int),
{
    let mut even: usize = 0;
    let mut odd: usize = 0;
    let mut i: usize = 0;
    while i < b.len()
        invariant
            0 <= i <= b@.len(),
            even == zeros_at_parity(b@, 0, i as int),
            odd == zeros_at_parity(b@, 1, i as int),
            even <= i,
            odd <= i,
        decreases b@.len() - i,
    {
        if b[i] == 0 {
            if i % 2 == 0 {
                even = even + 1;
            } else {
                odd = odd + 1;
            }
        }
        i = i + 1;
    }
    (even, odd)
}

/// Finds the byte-order mark and the encoding of a file's raw bytes.
pub fn detect_encoding(b: &[u8], hint: EncodingHint) -> (r: (Option<Bom>, TextEncoding))
    ensures
        r == detected(b@, hint),
{
    let n = b.len();
    if n >= 3 && b[0] == 0xEF && b[1] == 0xBB && b[2] == 0xBF {
        return (Some(Bom::Utf8), TextEncoding::Utf8);
    }
    if n >= 2 && b[0] == 0xFF && b[1] == 0xFE {
        return (Some(Bom::Utf16Le), TextEncoding::Utf16Le);
    }
    if n >= 2 && b[0] == 0xFE && b[1] == 0xFF {
        return (Some(Bom::Utf16Be), TextEncoding::Utf16Be);
    }
    match hint {
        EncodingHint::Fixed(e) => (None, e),
        EncodingHint::Auto => {
            if n < 2 || n % 2 != 0 {
                return (None, TextEncoding::Utf8);
            }
            let (even, odd) = count_zeros(b);
            let pairs = n / 2;
            if even == 0 && (odd >= pairs || odd >= pairs - odd) {
                (None, TextEncoding::Utf16Le)
            } else if odd == 0 && (even >= pairs || even >= pairs - even) {
                (None, TextEncoding::Utf16Be)
            } else {
                (None, TextEncoding::Utf8)
            }
        },
    }
}

/// The two bytes of one UTF-16 code unit.
pub open spec fn unit_bytes(u: int, big_endian: bool) -> Seq<u8> {
    if big_endian {
        seq![(u / 256) as u8, (u % 256) as u8]
    } else {
        seq![(u % 256) as u8, (u / 256) as u8]
    }
}

/// The UTF-16 encoding of one character: one code unit below 0x10000, a
/// surrogate pair above.
pub open spec fn utf16_char_bytes(c: char, big_endian: bool) -> Seq<u8> {
    let v = c as u32 as int;
    if v < 0x10000 {
        unit_bytes(v, big_endian)
    } else {
        unit_bytes(0xD800 + (v - 0x10000) / 0x400, big_endian) + unit_bytes(
            0xDC00 + (v - 0x10000) % 0x400,
            big_endian,
        )
    }
}

pub open spec fn utf16_encode(cs: Seq<char>, big_endian: bool) -> Seq<u8>
    decreases cs.len(),
{
    if cs.len() == 0 {
        Seq::empty()
    } else {
        utf16_encode(cs.drop_last(), big_endian) + utf16_char_bytes(cs.last(), big_endian)
    }
}

/// Relies on encoding's `UTF_8.decode` with `DecoderTrap::Strict`: it
/// succeeds exactly on well-formed UTF-8, and the text it returns holds the
/// input bytes unchanged.
#[verifier::external_body]
fn decode_utf8_strict(b: &[u8]) -> (r: Option<Vec<u8>>)
    ensures
        r is Some <==> valid_utf8(b@),
        r is Some ==> r->0@ == b@,
{
    encoding::all::UTF_8.decode(b, DecoderTrap::Strict).ok().map(|s| s.into_bytes())
}

/// Relies on encoding's `UTF_8.encode` with `EncoderTrap::Strict`: it never
/// fails and writes the bytes of the text unchanged.
#[verifier::external_body]
fn encode_utf8_strict(text: &[u8]) -> (r: Option<Vec<u8>>)
    requires
        valid_utf8(text@),
    ensures
        r is Some,
        r->0@ == text@,
{
    let s = std::str::from_utf8(text).ok()?;
    encoding::all::UTF_8.encode(s, EncoderTrap::Strict).ok()
}

/// Relies on encoding's `UTF_16LE.decode` with `DecoderTrap::Strict`: it
/// succeeds exactly on the bytes that encode some text (even length, no lone
/// surrogate), and that text encodes back to the input.
#[verifier::external_body]
fn decode_utf16le_strict(b: &[u8]) -> (r: Option<Vec<u8>>)
    ensures
        r is Some <==> exists|cs: Seq<char>| #[trigger] utf16_encode(cs, false) == b@,
        r is Some ==> valid_utf8(r->0@) && utf16_encode(decode_utf8(r->0@), false) == b@,
{
    encoding::all::UTF_16LE.decode(b, DecoderTrap::Strict).ok().map(|s| s.into_bytes())
}

/// Relies on encoding's `UTF_16BE.decode` with `DecoderTrap::Strict`, as
/// for the little-endian one.
#[verifier::external_body]
fn decode_utf16be_strict(b: &[u8]) -> (r: Option<Vec<u8>>)
    ensures
        r is Some <==> exists|cs: Seq<char>| #[trigger] utf16_encode(cs, true) == b@,
        r is Some ==> valid_utf8(r->0@) && utf16_encode(decode_utf8(r->0@), true) == b@,
{
    encoding::all::UTF_16BE.decode(b, DecoderTrap::Strict).ok().map(|s| s.into_bytes())
}

/// Relies on encoding's `UTF_16LE.encode` with `EncoderTrap::Strict`: it
/// never fails and writes each character as one code unit or a surrogate
/// pair, low byte first.
#[verifier::external_body]
fn encode_utf16le_strict(text: &[u8]) -> (r: Option<Vec<u8>>)
    requires
        valid_utf8(text@),
    ensures
        r is Some,
        r->0@ == utf16_encode(decode_utf8(text@), false),
{
    let s = std::str::from_utf8(text).ok()?;
    encoding::all::UTF_16LE.encode(s, EncoderTrap::Strict).ok()
}

/// Relies on encoding's `UTF_16BE.encode` with `EncoderTrap::Strict`: as
/// for the little-endian one, high byte first.
#[verifier::external_body]
fn encode_utf16be_strict(text: &[u8]) -> (r: Option<Vec<u8>>)
    requires
        valid_utf8(text@),
    ensures
        r is Some,
        r->0@ == utf16_encode(decode_utf8(text@), true),
{
    let s = std::str::from_utf8(text).ok()?;
    encoding::all::UTF_16BE.encode(s, EncoderTrap::Strict).ok()
}

/// The bytes that are decoded: a UTF-16 mark is stripped, a UTF-8 mark is
/// kept as ordinary content.
pub open spec fn body_of(b: Seq<u8>, bom: Option<Bom>) -> Seq<u8> {
    match bom {
        Some(Bom::Utf16Le) | Some(Bom::Utf16Be) => b.subrange(2, b.len() as int),
        _ => b,
    }
}

/// The bytes written back in front of the encoded text.
pub open spec fn prefix_of(bom: Option<Bom>) -> Seq<u8> {
    match bom {
        Some(Bom::Utf16Le) | Some(Bom::Utf16Be) => bom_bytes(bom->0),
        _ => Seq::empty(),
    }
}

/// The bytes of decoded text (held as UTF-8) in the given encoding.
pub open spec fn encoded_in(text: Seq<u8>, enc: TextEncoding) -> Seq<u8> {
    match enc {
        TextEncoding::Utf8 => text,
        TextEncoding::Utf16Le => utf16_encode(decode_utf8(text), false),
        TextEncoding::Utf16Be => utf16_encode(decode_utf8(text), true),
    }
}

/// Whether `body` can be decoded strictly from the encoding.
pub open spec fn decodable(body: Seq<u8>, enc: TextEncoding) -> bool {
    match enc {
        TextEncoding::Utf8 => valid_utf8(body),
        TextEncoding::Utf16Le => exists|cs: Seq<char>| #[trigger] utf16_encode(cs, false) == body,
        TextEncoding::Utf16Be => exists|cs: Seq<char>| #[trigger] utf16_encode(cs, true) == body,
    }
}

/// The mark and encoding that `b` is decoded with: those detected, except
/// that bytes without a mark that were only guessed to be UTF-16, and do not
/// decode as UTF-16, are read as UTF-8.
pub open spec fn decoding_of(b: Seq<u8>, hint: EncodingHint) -> (Option<Bom>, TextEncoding) {
    let d = detected(b, hint);
    if d.0 is None && hint == EncodingHint::Auto && d.1 != TextEncoding::Utf8 && !decodable(
        b,
        d.1,
    ) {
        (None, TextEncoding::Utf8)
    } else {
        d
    }
}

/// `text` is the decoded content of the raw bytes `b`.
pub open spec fn decodes_to(b: Seq<u8>, hint: EncodingHint, text: Seq<u8>) -> bool {
    let (bom, enc) = decoding_of(b, hint);
    valid_utf8(text) && encoded_in(text, enc) == body_of(b, bom)
}

/// The raw bytes that decoded text is written back as.
pub open spec fn file_bytes_of(bom: Option<Bom>, enc: TextEncoding, text: Seq<u8>) -> Seq<u8> {
    prefix_of(bom) + encoded_in(text, enc)
}

/// A file's raw bytes, decoded: its mark, its encoding and its text.
pub struct Decoded {
    pub bom: Option<Bom>,
    pub encoding: TextEncoding,
    pub text: Vec<u8>,
}

/// Detects the encoding of a file's raw bytes, strips a UTF-16 mark and
/// decodes the rest strictly; bytes only guessed to be UTF-16 that do not
/// decode so are tried as UTF-8. `None` where the bytes are not well formed
/// in the encoding finally chosen.
pub fn decode_contents(b: &[u8], hint: EncodingHint) -> (r: Option<Decoded>)
    ensures
        r is Some <==> decodable(
            body_of(b@, decoding_of(b@, hint).0),
            decoding_of(b@, hint).1,
        ),
        r matches Some(d) ==> {
            &&& (d.bom, d.encoding) == decoding_of(b@, hint)
            &&& decodes_to(b@, hint, d.text@)
        },
{
    let (bom, enc) = detect_encoding(b, hint);
    let skip: usize = match bom {
        Some(Bom::Utf16Le) | Some(Bom::Utf16Be) => 2,
        _ => 0,
    };
    let body = slice_from(b, skip);
    proof {
        assert(body@ == body_of(b@, bom));
    }
    let text = match enc {
        TextEncoding::Utf8 => decode_utf8_strict(body),
        TextEncoding::Utf16Le => decode_utf16le_strict(body),
        TextEncoding::Utf16Be => decode_utf16be_strict(body),
    };
    match text {
        Some(t) => Some(Decoded { bom, encoding: enc, text: t }),
        None => {
            let guessed = bom.is_none() && hint == EncodingHint::Auto && enc
                != TextEncoding::Utf8;
            if guessed {
                match decode_utf8_strict(b) {
                    Some(t) => Some(Decoded { bom: None, encoding: TextEncoding::Utf8, text: t }),
                    None => None,
                }
            } else {
                None
            }
        },
    }
}

fn slice_from(b: &[u8], start: usize) -> (r: &[u8])
    requires
        start <= b@.len(),
    ensures
        r@ == b@.subrange(start as int, b@.len() as int),
{
    b.split_at(start).1
}

/// Encodes text back to the given encoding, with a UTF-16 mark in front
/// where there was one.
pub fn encode_contents(bom: Option<Bom>, enc: TextEncoding, text: &[u8]) -> (r: Vec<u8>)
    requires
        valid_utf8(text@),
    ensures
        r@ == file_bytes_of(bom, enc, text@),
{
    let encoded = match enc {
        TextEncoding::Utf8 => encode_utf8_strict(text),
        TextEncoding::Utf16Le => encode_utf16le_strict(text),
        TextEncoding::Utf16Be => encode_utf16be_strict(text),
    };
    let encoded = encoded.unwrap();
    let mut out: Vec<u8> = match bom {
        Some(Bom::Utf16Le) => vec![0xFFu8, 0xFEu8],
        Some(Bom::Utf16Be) => vec![0xFEu8, 0xFFu8],
        _ => Vec::new(),
    };
    let ghost start = out@;
    let mut i: usize = 0;
    while i < encoded.len()
        invariant
            0 <= i <= encoded@.len(),
            out@ == start + encoded@.subrange(0, i as int),
        decreases encoded@.len() - i,
    {
        out.push(encoded[i]);
        i = i + 1;
        proof {
            assert(out@ =~= start + encoded@.subrange(0, i as int));
        }
    }
    proof {
        assert(encoded@.subrange(0, encoded@.len() as int) =~= encoded@);
        assert(start == prefix_of(bom));
    }
    out
}

/// Decoding then re-encoding unmodified content gives back the original
/// bytes, mark included, for every encoding and with or without a mark.
pub proof fn lemma_round_trip(b: Seq<u8>, hint: EncodingHint, text: Seq<u8>)
    requires
        decodes_to(b, hint, text),
    ensures
        file_bytes_of(decoding_of(b, hint).0, decoding_of(b, hint).1, text) == b,
{
    let (bom, enc) = decoding_of(b, hint);
    match bom {
        Some(Bom::Utf16Le) | Some(Bom::Utf16Be) => {
            assert(prefix_of(bom) + b.subrange(2, b.len() as int) =~= b);
        },
        _ => {
            assert(Seq::<u8>::empty() + b =~= b);
        },
    }
}

} // verus!
