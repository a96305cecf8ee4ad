//! Decoding the bytes of a text file: UTF-8 first, then the legacy East
//! Asian encodings that `encoding_rs` knows, then lossy UTF-8.
use vstd::prelude::*;
use vstd::utf8::decode_utf8;
use vstd::utf8::valid_utf8;

verus! {

/// The legacy encodings tried, in order, when a text is not UTF-8.
#[derive(Debug, Clone, Copy, PartialEq, Eq, Structural)]
pub enum LegacyEncoding {
    Gbk,
    Gb18030,
    Big5,
    EucJp,
    EucKr,
}

/// What `Encoding::decode_without_bom_handling` of `encoding_rs` gives for
/// `bytes` in `encoding`: the decoded text, and whether malformed
/// sequences were met (and replaced).
pub uninterp spec fn legacy_decode_outcome(encoding: LegacyEncoding, bytes: Seq<u8>) -> (
    Seq<char>,
    bool,
);

/// What `String::from_utf8_lossy` makes of `bytes`.
pub uninterp spec fn utf8_lossy_outcome(bytes: Seq<u8>) -> Seq<char>;

/// A size of input for which the output buffer that `encoding_rs` sizes
/// (at most about three bytes out per byte in, plus a few) cannot
/// overflow `usize`; its decoding panics only beyond that.
pub open spec fn decodable_size(bytes: Seq<u8>) -> bool {
    bytes.len() * 4 + 64 <= usize::MAX
}

/// Decodes `raw` with `encoding_rs`'s `decode_without_bom_handling` for
/// `encoding`. The result is named `legacy_decode_outcome`; nothing more
/// is claimed of it.
#[verifier::external_body]
fn decode_legacy(encoding: LegacyEncoding, raw: &[u8]) -> (r: (String, bool))
    requires
        decodable_size(raw@),
    ensures
        (r.0@, r.1) == legacy_decode_outcome(encoding, raw@),
{
    let enc = match encoding {
        LegacyEncoding::Gbk => encoding_rs::GBK,
        LegacyEncoding::Gb18030 => encoding_rs::GB18030,
        LegacyEncoding::Big5 => encoding_rs::BIG5,
        LegacyEncoding::EucJp => encoding_rs::EUC_JP,
        LegacyEncoding::EucKr => encoding_rs::EUC_KR,
    };
    let (text, had_errors) = enc.decode_without_bom_handling(raw);
    (text.into_owned(), had_errors)
}

/// `String::from_utf8` on a copy of `raw`: the text when `raw` is valid
/// UTF-8, as std documents, and `None` otherwise.
#[verifier::external_body]
fn utf8_text(raw: &[u8]) -> (r: Option<String>)
    ensures
        r is Some <==> valid_utf8(raw@),
        r matches Some(s) ==> s@ == decode_utf8(raw@),
{
    String::from_utf8(raw.to_vec()).ok()
}

/// `String::from_utf8_lossy` on `raw`. The result is named
/// `utf8_lossy_outcome`; of valid UTF-8 it is the decoded text, as std
/// documents.
#[verifier::external_body]
fn utf8_lossy(raw: &[u8]) -> (r: String)
    ensures
        r@ == utf8_lossy_outcome(raw@),
        valid_utf8(raw@) ==> r@ == decode_utf8(raw@),
{
    String::from_utf8_lossy(raw).into_owned()
}

/// Whether `raw` begins with the UTF-8 byte order mark.
pub open spec fn has_utf8_bom(raw: Seq<u8>) -> bool {
    raw.len() >= 3 && raw[0] == 0xEF && raw[1] == 0xBB && raw[2] == 0xBF
}

/// The text of the file bytes `raw`: the UTF-8 text if `raw` is valid
/// UTF-8 (also after a byte order mark), else the first of GBK, GB18030,
/// Big5, EUC-JP and EUC-KR that decodes without errors, else lossy UTF-8.
pub open spec fn decoded_text(raw: Seq<u8>) -> Seq<char> {
    if valid_utf8(raw) {
        decode_utf8(raw)
    } else if has_utf8_bom(raw) && valid_utf8(raw.skip(3)) {
        decode_utf8(raw.skip(3))
    } else if !legacy_decode_outcome(LegacyEncoding::Gbk, raw).1 {
        legacy_decode_outcome(LegacyEncoding::Gbk, raw).0
    } else if !legacy_decode_outcome(LegacyEncoding::Gb18030, raw).1 {
        legacy_decode_outcome(LegacyEncoding::Gb18030, raw).0
    } else if !legacy_decode_outcome(LegacyEncoding::Big5, raw).1 {
        legacy_decode_outcome(LegacyEncoding::Big5, raw).0
    } else if !legacy_decode_outcome(LegacyEncoding::EucJp, raw).1 {
        legacy_decode_outcome(LegacyEncoding::EucJp, raw).0
    } else if !legacy_decode_outcome(LegacyEncoding::EucKr, raw).1 {
        legacy_decode_outcome(LegacyEncoding::EucKr, raw).0
    } else {
        utf8_lossy_outcome(raw)
    }
}

/// The bytes `raw[a..]`.
fn bytes_from(raw: &[u8], a: usize) -> (r: Vec<u8>)
    requires
        a <= raw@.len(),
    ensures
        r@ == raw@.skip(a as int),
{
    let mut out: Vec<u8> = Vec::new();
    let mut i = a;
    while i < raw.len()
        invariant
            a <= i <= raw@.len(),
            out@ == raw@.subrange(a as int, i as int),
        decreases raw@.len() - i,
    {
        out.push(raw[i]);
        i = i + 1;
        assert(out@ =~= raw@.subrange(a as int, i as int));
    }
    out
}

/// Decodes the bytes of a text file as `decoded_text` says.
pub fn decode_text(raw: &[u8]) -> (r: String)
    requires
        decodable_size(raw@),
    ensures
        r@ == decoded_text(raw@),
{
    if let Some(s) = utf8_text(raw) {
        return s;
    }
    if raw.len() >= 3 && raw[0] == 0xEF && raw[1] == 0xBB && raw[2] == 0xBF {
        let rest = bytes_from(raw, 3);
        if let Some(s) = utf8_text(rest.as_slice()) {
            return s;
        }
    }
    let (s, had_errors) = decode_legacy(LegacyEncoding::Gbk, raw);
    if !had_errors {
        return s;
    }
    let (s, had_errors) = decode_legacy(LegacyEncoding::Gb18030, raw);
    if !had_errors {
        return s;
    }
    let (s, had_errors) = decode_legacy(LegacyEncoding::Big5, raw);
    if !had_errors {
        return s;
    }
    let (s, had_errors) = decode_legacy(LegacyEncoding::EucJp, raw);
    if !had_errors {
        return s;
    }
    let (s, had_errors) = decode_legacy(LegacyEncoding::EucKr, raw);
    if !had_errors {
        return s;
    }
    utf8_lossy(raw)
}

} // verus!
