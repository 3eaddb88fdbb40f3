//! Text of unknown encoding: the encoding is guessed from the bytes, and the
//! bytes are decoded with it.
use vstd::prelude::*;

verus! {

/// What `chardetng` guesses for the bytes (with no top-level domain hint,
/// UTF-8 allowed) and `encoding_rs` then decodes them to, with
/// replacement characters for malformed sequences.
pub uninterp spec fn auto_decoded(bytes: Seq<u8>) -> Seq<char>;

/// ASCII bytes with no escape byte (0x1B, which could start ISO-2022-JP).
pub open spec fn is_plain_ascii(bytes: Seq<u8>) -> bool {
    forall|i: int| 0 <= i < bytes.len() ==> #[trigger] bytes[i] < 0x80 && bytes[i] != 0x1b
}

/// `chardetng::EncodingDetector` (`new`, `feed` with `last = true`,
/// `guess(None, true)`) followed by `encoding_rs::Encoding::decode`.  The
/// result is a function of the bytes, named `auto_decoded`.  For plain
/// ASCII the detector's source returns UTF-8 (its UTF-8 candidate stays
/// valid and no non-ASCII byte or escape was seen), and UTF-8 decoding of
/// ASCII gives the same characters: that is the one further fact stated.
#[verifier::external_body]
fn detect_and_decode(bytes: &[u8]) -> (r: String)
    ensures
        r@ == auto_decoded(bytes@),
        is_plain_ascii(bytes@) ==> r@ == Seq::new(bytes@.len(), |i: int| bytes@[i] as char),
{
    let mut detector = chardetng::EncodingDetector::new();
    detector.feed(bytes, true);
    let encoding = detector.guess(None, true);
    let (text, _, _) = encoding.decode(bytes);
    text.into_owned()
}

/// Decodes bytes of unknown encoding to text (see `auto_decoded`).
pub fn decode_bytes_auto(bytes: &[u8]) -> (r: String)
    ensures
        r@ == auto_decoded(bytes@),
        is_plain_ascii(bytes@) ==> r@ == Seq::new(bytes@.len(), |i: int| bytes@[i] as char),
{
    detect_and_decode(bytes)
}

} // verus!
