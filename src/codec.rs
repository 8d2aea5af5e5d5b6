//! The payload decoder: turns the text of a layer's data section into raw ids, for
//! CSV, base64, and base64 with gzip, zlib or zstd compression.

use base64::Engine;
use std::io::Read;
use vstd::prelude::*;
use vstd::string::StrSliceExecFns;

use crate::error::Error;
use crate::text::{chars_of, text_is, trim_bounds, trimmed, u32_in, u32_of};

verus! {

/// The bytes that standard base64 (with padding) decodes `text` to, if it is valid.
pub uninterp spec fn base64_decoded(text: Seq<char>) -> Option<Seq<u8>>;

/// The bytes that a gzip stream `data` inflates to, if it is valid.
pub uninterp spec fn gzip_decoded(data: Seq<u8>) -> Option<Seq<u8>>;

/// The bytes that a zlib stream `data` inflates to, if it is valid.
pub uninterp spec fn zlib_decoded(data: Seq<u8>) -> Option<Seq<u8>>;

/// The bytes that a zstd stream `data` decompresses to, if it is valid.
pub uninterp spec fn zstd_decoded(data: Seq<u8>) -> Option<Seq<u8>>;

/// Relies on base64's `STANDARD` engine `decode`: the bytes that the text stands for,
/// or an error for a character outside the alphabet or bad padding.
#[verifier::external_body]
fn decode_base64(text: &str) -> (r: Option<Vec<u8>>)
    ensures
        r is Some <==> base64_decoded(text@) is Some,
        r matches Some(b) ==> b@ == base64_decoded(text@)->0,
{
    base64::engine::general_purpose::STANDARD.decode(text.as_bytes()).ok()
}

/// Relies on flate2's `read::GzDecoder`, read to its end: the inflated bytes, or an
/// error for a corrupt stream.
#[verifier::external_body]
fn inflate_gzip(data: &[u8]) -> (r: Option<Vec<u8>>)
    ensures
        r is Some <==> gzip_decoded(data@) is Some,
        r matches Some(b) ==> b@ == gzip_decoded(data@)->0,
{
    let mut out = Vec::new();
    flate2::read::GzDecoder::new(data).read_to_end(&mut out).ok().map(|_| out)
}

/// Relies on flate2's `read::ZlibDecoder`, read to its end: the inflated bytes, or an
/// error for a corrupt stream.
#[verifier::external_body]
fn inflate_zlib(data: &[u8]) -> (r: Option<Vec<u8>>)
    ensures
        r is Some <==> zlib_decoded(data@) is Some,
        r matches Some(b) ==> b@ == zlib_decoded(data@)->0,
{
    let mut out = Vec::new();
    flate2::read::ZlibDecoder::new(data).read_to_end(&mut out).ok().map(|_| out)
}

/// Relies on zstd's `stream::decode_all`: the decompressed bytes, or an error for a
/// corrupt stream.
#[verifier::external_body]
fn decompress_zstd(data: &[u8]) -> (r: Option<Vec<u8>>)
    ensures
        r is Some <==> zstd_decoded(data@) is Some,
        r matches Some(b) ==> b@ == zstd_decoded(data@)->0,
{
    zstd::stream::decode_all(data).ok()
}

/// The supported pairs of `encoding` and `compression` attributes.
#[derive(Clone, Copy, Debug, PartialEq, Eq, Structural)]
pub enum PayloadFormat {
    Csv,
    Base64,
    Base64Gzip,
    Base64Zlib,
    Base64Zstd,
}

pub open spec fn opt_text(o: Option<&str>) -> Option<Seq<char>> {
    match o {
        Some(s) => Some(s@),
        None => None,
    }
}

/// The format named by the attribute pair; `None` for any other pair.
pub open spec fn format_of(encoding: Option<Seq<char>>, compression: Option<Seq<char>>) -> Option<
    PayloadFormat,
> {
    match (encoding, compression) {
        (Some(e), None) => if e == "csv"@ {
            Some(PayloadFormat::Csv)
        } else if e == "base64"@ {
            Some(PayloadFormat::Base64)
        } else {
            None
        },
        (Some(e), Some(c)) => if e != "base64"@ {
            None
        } else if c == "gzip"@ {
            Some(PayloadFormat::Base64Gzip)
        } else if c == "zlib"@ {
            Some(PayloadFormat::Base64Zlib)
        } else if c == "zstd"@ {
            Some(PayloadFormat::Base64Zstd)
        } else {
            None
        },
        (None, _) => None,
    }
}

impl PayloadFormat {
    /// Reads the format from the data section's attributes; any pair outside the
    /// supported ones is refused.
    pub fn from_attributes(encoding: Option<&str>, compression: Option<&str>) -> (r: Result<
        PayloadFormat,
        Error,
    >)
        ensures
            r == (match format_of(opt_text(encoding), opt_text(compression)) {
                Some(f) => Ok(f),
                None => Err(Error::UnsupportedEncodingError),
            }),
    {
        match encoding {
            None => Err(Error::UnsupportedEncodingError),
            Some(e) => match compression {
                None => {
                    if text_is(e, "csv") {
                        Ok(PayloadFormat::Csv)
                    } else if text_is(e, "base64") {
                        Ok(PayloadFormat::Base64)
                    } else {
                        Err(Error::UnsupportedEncodingError)
                    }
                },
                Some(c) => {
                    if !text_is(e, "base64") {
                        Err(Error::UnsupportedEncodingError)
                    } else if text_is(c, "gzip") {
                        Ok(PayloadFormat::Base64Gzip)
                    } else if text_is(c, "zlib") {
                        Ok(PayloadFormat::Base64Zlib)
                    } else if text_is(c, "zstd") {
                        Ok(PayloadFormat::Base64Zstd)
                    } else {
                        Err(Error::UnsupportedEncodingError)
                    }
                },
            },
        }
    }
}

/// The little-endian 32-bit integer held by `b[k..k + 4]`.
pub open spec fn le_u32_at(b: Seq<u8>, k: int) -> u32 {
    (b[k] as int + 256 * b[k + 1] as int + 65536 * b[k + 2] as int + 16777216 * b[k
        + 3] as int) as u32
}

/// Every four bytes read as one little-endian id; a trailing partial group is an error.
pub open spec fn le_ids(b: Seq<u8>) -> Result<Seq<u32>, Error> {
    if b.len() % 4 != 0 {
        Err(Error::DecodeLayerError)
    } else {
        Ok(Seq::new((b.len() / 4) as nat, |i: int| le_u32_at(b, 4 * i)))
    }
}

pub open spec fn ids_view(r: Result<Vec<u32>, Error>) -> Result<Seq<u32>, Error> {
    match r {
        Ok(v) => Ok(v@),
        Err(e) => Err(e),
    }
}

/// Unpacks bytes into little-endian 32-bit ids, four bytes at a time.
pub fn parse_bytes(b: &[u8]) -> (r: Result<Vec<u32>, Error>)
    ensures
        ids_view(r) == le_ids(b@),
{
    let n = b.len();
    if n % 4 != 0 {
        return Err(Error::DecodeLayerError);
    }
    let mut ids: Vec<u32> = Vec::new();
    let mut k: usize = 0;
    while k < n
        invariant
            n == b@.len(),
            n % 4 == 0,
            k % 4 == 0,
            k <= n,
            k == 4 * ids.len(),
            forall|i: int| 0 <= i < ids.len() ==> ids@[i] == le_u32_at(b@, 4 * i),
        decreases n - k,
    {
        let v: u32 = b[k] as u32 + 256 * (b[k + 1] as u32) + 65536 * (b[k + 2] as u32)
            + 16777216 * (b[k + 3] as u32);
        ids.push(v);
        k += 4;
    }
    assert(ids@ =~= Seq::new((n / 4) as nat, |i: int| le_u32_at(b@, 4 * i)));
    Ok(ids)
}

/// The comma-separated fields of `s`, separators removed; always at least one field.
pub open spec fn split_commas(s: Seq<char>) -> Seq<Seq<char>>
    decreases s.len(),
{
    if s.len() == 0 {
        seq![Seq::<char>::empty()]
    } else {
        let f = split_commas(s.drop_last());
        if s.last() == ',' {
            f.push(Seq::<char>::empty())
        } else {
            f.update(f.len() - 1, f.last().push(s.last()))
        }
    }
}

/// Comma-separated decimal ids, each field trimmed of whitespace.
pub open spec fn csv_ids(s: Seq<char>) -> Result<Seq<u32>, Error> {
    let fields = split_commas(s);
    if forall|i: int| 0 <= i < fields.len() ==> (#[trigger] u32_of(trimmed(fields[i]))) is Some {
        Ok(fields.map_values(|f: Seq<char>| u32_of(trimmed(f))->0))
    } else {
        Err(Error::ParsingError)
    }
}

proof fn lemma_split_nonempty(s: Seq<char>)
    ensures
        split_commas(s).len() >= 1,
    decreases s.len(),
{
    if s.len() > 0 {
        lemma_split_nonempty(s.drop_last());
    }
}

proof fn lemma_split_step(s: Seq<char>, k: int)
    requires
        0 <= k < s.len(),
    ensures
        split_commas(s.take(k + 1)) == (if s[k] == ',' {
            split_commas(s.take(k)).push(Seq::<char>::empty())
        } else {
            let f = split_commas(s.take(k));
            f.update(f.len() - 1, f.last().push(s[k]))
        }),
{
    assert(s.take(k + 1).drop_last() =~= s.take(k));
}

proof fn lemma_split_extends(s: Seq<char>, k: int)
    requires
        0 <= k <= s.len(),
    ensures
        split_commas(s.take(k)).len() <= split_commas(s).len(),
        forall|j: int|
            0 <= j < split_commas(s.take(k)).len() - 1 ==> split_commas(s)[j] == split_commas(
                s.take(k),
            )[j],
    decreases s.len() - k,
{
    if k < s.len() {
        lemma_split_extends(s, k + 1);
        lemma_split_step(s, k);
        lemma_split_nonempty(s.take(k));
    } else {
        assert(s.take(k) =~= s);
    }
}

/// Parses comma-separated decimal ids; whitespace around each id is ignored.
pub fn parse_csv(csv: &str) -> (r: Result<Vec<u32>, Error>)
    ensures
        ids_view(r) == csv_ids(csv@),
{
    let c = chars_of(csv);
    let n = c.len();
    let ghost s = c@;
    let mut ids: Vec<u32> = Vec::new();
    let mut start: usize = 0;
    let mut i: usize = 0;
    assert(s.take(0) =~= Seq::<char>::empty());
    assert(c@.subrange(0, 0) =~= Seq::<char>::empty());
    while i < n
        invariant
            n == c.len(),
            s == c@,
            s == csv@,
            start <= i <= n,
            split_commas(s.take(i as int)).len() == ids.len() + 1,
            split_commas(s.take(i as int)).last() == c@.subrange(start as int, i as int),
            forall|j: int|
                0 <= j < ids.len() ==> u32_of(trimmed(split_commas(s.take(i as int))[j]))
                    == Some(#[trigger] ids@[j]),
        decreases n - i,
    {
        proof {
            lemma_split_step(s, i as int);
            lemma_split_nonempty(s.take(i as int));
        }
        if c[i] == ',' {
            let (a, b) = trim_bounds(&c, start, i);
            match u32_in(&c, a, b) {
                None => {
                    proof {
                        lemma_split_extends(s, i + 1);
                        let m = ids.len() as int;
                        assert(split_commas(s)[m] == c@.subrange(start as int, i as int));
                    }
                    return Err(Error::ParsingError);
                },
                Some(v) => {
                    ids.push(v);
                },
            }
            start = i + 1;
            assert(c@.subrange(start as int, i + 1) =~= Seq::<char>::empty());
        } else {
            assert(c@.subrange(start as int, i + 1) =~= c@.subrange(start as int, i as int).push(
                c@[i as int],
            ));
        }
        i += 1;
    }
    assert(s.take(n as int) =~= s);
    let (a, b) = trim_bounds(&c, start, n);
    let ghost fields = split_commas(s);
    match u32_in(&c, a, b) {
        None => {
            assert(u32_of(trimmed(fields[ids.len() as int])) is None);
            Err(Error::ParsingError)
        },
        Some(v) => {
            ids.push(v);
            assert(forall|j: int|
                0 <= j < fields.len() ==> u32_of(trimmed(fields[j])) == Some(#[trigger] ids@[j]));
            assert forall|j: int| 0 <= j < fields.len() implies (#[trigger] u32_of(
                trimmed(fields[j]),
            )) is Some by {
                assert(u32_of(trimmed(fields[j])) == Some(ids@[j]));
            }
            assert(ids@ =~= fields.map_values(|f: Seq<char>| u32_of(trimmed(f))->0));
            Ok(ids)
        },
    }
}

/// The ids that the text of a data section holds in the given format.
pub open spec fn payload_ids(text: Seq<char>, format: PayloadFormat) -> Result<Seq<u32>, Error> {
    match format {
        PayloadFormat::Csv => csv_ids(text),
        _ => match base64_decoded(text) {
            None => Err(Error::DecodeLayerError),
            Some(raw) => {
                let data = match format {
                    PayloadFormat::Base64Gzip => gzip_decoded(raw),
                    PayloadFormat::Base64Zlib => zlib_decoded(raw),
                    PayloadFormat::Base64Zstd => zstd_decoded(raw),
                    _ => Some(raw),
                };
                match data {
                    None => Err(Error::DecodeLayerError),
                    Some(d) => le_ids(d),
                }
            },
        },
    }
}

/// Decodes the text of a data section in the given format into raw ids.
pub fn decode_payload(text: &str, format: PayloadFormat) -> (r: Result<Vec<u32>, Error>)
    ensures
        ids_view(r) == payload_ids(text@, format),
{
    if let PayloadFormat::Csv = format {
        return parse_csv(text);
    }
    let raw = match decode_base64(text) {
        None => return Err(Error::DecodeLayerError),
        Some(raw) => raw,
    };
    let data = match format {
        PayloadFormat::Base64Gzip => inflate_gzip(raw.as_slice()),
        PayloadFormat::Base64Zlib => inflate_zlib(raw.as_slice()),
        PayloadFormat::Base64Zstd => decompress_zstd(raw.as_slice()),
        _ => Some(raw),
    };
    match data {
        None => Err(Error::DecodeLayerError),
        Some(d) => parse_bytes(d.as_slice()),
    }
}

/// Decodes a data section's text, given its `encoding` and `compression` attributes.
/// An unsupported pair is refused before any decoding.
pub fn parse_tile_gids(layer_data: &str, encoding: Option<&str>, compression: Option<&str>) -> (r:
    Result<Vec<u32>, Error>)
    ensures
        ids_view(r) == (match format_of(opt_text(encoding), opt_text(compression)) {
            Some(f) => payload_ids(layer_data@, f),
            None => Err(Error::UnsupportedEncodingError),
        }),
{
    let format = match PayloadFormat::from_attributes(encoding, compression) {
        Ok(f) => f,
        Err(e) => return Err(e),
    };
    decode_payload(layer_data, format)
}

/// `text` with leading and trailing whitespace removed.
pub fn trim(text: &str) -> (r: &str)
    ensures
        r@ == trimmed(text@),
{
    let c = chars_of(text);
    let (a, b) = trim_bounds(&c, 0, c.len());
    assert(c@.subrange(0, c@.len() as int) =~= c@);
    text.substring_char(a, b)
}

} // verus!
