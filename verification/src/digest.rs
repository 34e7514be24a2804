//! Content digests: the lookup key of a fixture's baseline.

use vstd::prelude::*;

verus! {

/// The MD5 digest of `data`, 16 bytes.
pub uninterp spec fn md5_of(data: Seq<u8>) -> Seq<u8>;

/// `md5::compute` on a byte slice. Trusted: the 16 bytes returned are the MD5
/// digest of the input and depend on the input bytes alone.
#[verifier::external_body]
fn md5_compute(data: &[u8]) -> (r: [u8; 16])
    ensures
        r@ == md5_of(data@),
{
    md5::compute(data).0
}

/// The lower-case hexadecimal digit of a value below 16.
pub open spec fn hex_digit(n: u8) -> u8 {
    if n < 10 {
        (48 + n) as u8
    } else {
        (87 + n) as u8
    }
}

/// Lower-case hexadecimal text of `bytes`: two digits per byte, high digit first.
pub open spec fn hex_of(bytes: Seq<u8>) -> Seq<u8> {
    Seq::new(
        2 * bytes.len(),
        |i: int|
            if i % 2 == 0 {
                hex_digit(bytes[i / 2] / 16)
            } else {
                hex_digit(bytes[i / 2] % 16)
            },
    )
}

/// Whether `b` is one of `0`..`9`, `a`..`f`.
pub open spec fn is_hex_digit(b: u8) -> bool {
    48 <= b <= 57 || 97 <= b <= 102
}

/// The width of a content digest in hexadecimal characters.
pub const DIGEST_WIDTH: usize = 32;

/// Whether `s` has the shape of a content digest.
pub open spec fn is_digest_text(s: Seq<u8>) -> bool {
    s.len() == DIGEST_WIDTH && forall|i: int| 0 <= i < s.len() ==> is_hex_digit(#[trigger] s[i])
}

/// A fixed-width hexadecimal identity of a fixture's raw content.
#[derive(Debug)]
pub struct ContentDigest {
    hex: Vec<u8>,
}

impl View for ContentDigest {
    type V = Seq<u8>;

    closed spec fn view(&self) -> Seq<u8> {
        self.hex@
    }
}

impl ContentDigest {
    #[verifier::type_invariant]
    spec fn well_formed(&self) -> bool {
        is_digest_text(self.hex@)
    }

    /// The digest of raw content.
    pub fn of_content(raw: &[u8]) -> (r: ContentDigest)
        ensures
            r@ == hex_of(md5_of(raw@)),
    {
        let sum = md5_compute(raw);
        let hex = hex_encode(sum.as_slice());
        ContentDigest { hex }
    }

    /// Reads a digest from its text; `None` unless the text is 32 lower-case
    /// hexadecimal characters.
    pub fn parse(text: &[u8]) -> (r: Option<ContentDigest>)
        ensures
            r is Some <==> is_digest_text(text@),
            r is Some ==> r->0@ == text@,
    {
        if text.len() != DIGEST_WIDTH {
            return None;
        }
        let mut hex: Vec<u8> = Vec::new();
        let mut i: usize = 0;
        while i < text.len()
            invariant
                0 <= i <= text.len(),
                hex@ == text@.take(i as int),
                forall|j: int| 0 <= j < i ==> is_hex_digit(#[trigger] text@[j]),
            decreases text.len() - i,
        {
            let b: u8 = text[i];
            if !((48 <= b && b <= 57) || (97 <= b && b <= 102)) {
                return None;
            }
            hex.push(b);
            assert(hex@ =~= text@.take(i + 1));
            i += 1;
        }
        assert(hex@ =~= text@);
        Some(ContentDigest { hex })
    }

    /// The digest's text.
    pub fn as_bytes(&self) -> (r: &[u8])
        ensures
            r@ == self@,
            is_digest_text(r@),
    {
        proof {
            use_type_invariant(self);
        }
        self.hex.as_slice()
    }
}

/// Writes `bytes` as lower-case hexadecimal text.
pub fn hex_encode(bytes: &[u8]) -> (r: Vec<u8>)
    ensures
        r@ == hex_of(bytes@),
        forall|i: int| 0 <= i < r@.len() ==> is_hex_digit(#[trigger] r@[i]),
{
    let mut r: Vec<u8> = Vec::new();
    let mut i: usize = 0;
    while i < bytes.len()
        invariant
            0 <= i <= bytes.len(),
            r@.len() == 2 * i,
            forall|j: int| 0 <= j < 2 * i ==> r@[j] == hex_of(bytes@)[j],
            forall|j: int| 0 <= j < 2 * i ==> is_hex_digit(#[trigger] r@[j]),
        decreases bytes.len() - i,
    {
        let b: u8 = bytes[i];
        let hi: u8 = b / 16;
        let lo: u8 = b % 16;
        let hi_digit: u8 = if hi < 10 { 48 + hi } else { 87 + hi };
        let lo_digit: u8 = if lo < 10 { 48 + lo } else { 87 + lo };
        r.push(hi_digit);
        r.push(lo_digit);
        i += 1;
    }
    assert(r@ =~= hex_of(bytes@));
    r
}

} // verus!
