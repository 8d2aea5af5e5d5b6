use std::io::Write;

use base64::Engine;
use tiled_map::codec::{decode_payload, parse_bytes, parse_csv};
use tiled_map::{parse_tile_gids, Error, PayloadFormat};

fn le_bytes(ids: &[u32]) -> Vec<u8> {
    let mut out = Vec::new();
    for id in ids {
        out.extend_from_slice(&id.to_le_bytes());
    }
    out
}

fn b64(bytes: &[u8]) -> String {
    base64::engine::general_purpose::STANDARD.encode(bytes)
}

const IDS: [u32; 6] = [0, 1, 98, 2147484833, 0x4000_0005, u32::MAX];

#[test]
fn csv_ids_are_trimmed_and_parsed() {
    assert_eq!(parse_csv("1, 2,3\n").unwrap(), vec![1, 2, 3]);
    assert_eq!(parse_csv("\n 7 \t").unwrap(), vec![7]);
    assert_eq!(parse_csv("+4,4294967295").unwrap(), vec![4, 4294967295]);
}

#[test]
fn csv_rejects_bad_tokens() {
    assert_eq!(parse_csv("1,x,3"), Err(Error::ParsingError));
    assert_eq!(parse_csv("1,,3"), Err(Error::ParsingError));
    assert_eq!(parse_csv("1,2,"), Err(Error::ParsingError));
    assert_eq!(parse_csv("4294967296"), Err(Error::ParsingError));
    assert_eq!(parse_csv("-1"), Err(Error::ParsingError));
    assert_eq!(parse_csv(""), Err(Error::ParsingError));
}

#[test]
fn bytes_unpack_little_endian() {
    assert_eq!(parse_bytes(&[1, 0, 0, 0, 0x21, 0x04, 0, 0x80]).unwrap(), vec![1, 2147484705]);
    assert_eq!(parse_bytes(&[]).unwrap(), Vec::<u32>::new());
}

#[test]
fn bytes_reject_partial_group() {
    assert_eq!(parse_bytes(&[1, 0, 0, 0, 7]), Err(Error::DecodeLayerError));
    assert_eq!(parse_bytes(&[1, 2, 3]), Err(Error::DecodeLayerError));
}

#[test]
fn round_trip_base64() {
    let text = b64(&le_bytes(&IDS));
    assert_eq!(decode_payload(&text, PayloadFormat::Base64).unwrap(), IDS.to_vec());
    assert_eq!(parse_tile_gids(&text, Some("base64"), None).unwrap(), IDS.to_vec());
}

#[test]
fn round_trip_base64_gzip() {
    let mut enc = flate2::write::GzEncoder::new(Vec::new(), flate2::Compression::default());
    enc.write_all(&le_bytes(&IDS)).unwrap();
    let text = b64(&enc.finish().unwrap());
    assert_eq!(parse_tile_gids(&text, Some("base64"), Some("gzip")).unwrap(), IDS.to_vec());
}

#[test]
fn round_trip_base64_zlib() {
    let mut enc = flate2::write::ZlibEncoder::new(Vec::new(), flate2::Compression::default());
    enc.write_all(&le_bytes(&IDS)).unwrap();
    let text = b64(&enc.finish().unwrap());
    assert_eq!(parse_tile_gids(&text, Some("base64"), Some("zlib")).unwrap(), IDS.to_vec());
}

#[test]
fn round_trip_base64_zstd() {
    let packed = zstd::stream::encode_all(&le_bytes(&IDS)[..], 0).unwrap();
    let text = b64(&packed);
    assert_eq!(parse_tile_gids(&text, Some("base64"), Some("zstd")).unwrap(), IDS.to_vec());
}

#[test]
fn round_trip_csv() {
    let text: Vec<String> = IDS.iter().map(|i| i.to_string()).collect();
    assert_eq!(parse_tile_gids(&text.join(","), Some("csv"), None).unwrap(), IDS.to_vec());
}

#[test]
fn bad_base64_is_a_decode_error() {
    assert_eq!(parse_tile_gids("@@@@", Some("base64"), None), Err(Error::DecodeLayerError));
    assert_eq!(parse_tile_gids("AQAAAA", Some("base64"), None), Err(Error::DecodeLayerError));
}

#[test]
fn corrupt_streams_are_decode_errors() {
    let text = b64(&[1, 2, 3, 4, 5, 6, 7, 8]);
    assert_eq!(parse_tile_gids(&text, Some("base64"), Some("gzip")), Err(Error::DecodeLayerError));
    assert_eq!(parse_tile_gids(&text, Some("base64"), Some("zlib")), Err(Error::DecodeLayerError));
    assert_eq!(parse_tile_gids(&text, Some("base64"), Some("zstd")), Err(Error::DecodeLayerError));
}

#[test]
fn decompressed_partial_group_is_a_decode_error() {
    let mut enc = flate2::write::ZlibEncoder::new(Vec::new(), flate2::Compression::default());
    enc.write_all(&[1, 0, 0, 0, 9]).unwrap();
    let text = b64(&enc.finish().unwrap());
    assert_eq!(parse_tile_gids(&text, Some("base64"), Some("zlib")), Err(Error::DecodeLayerError));
}

#[test]
fn unsupported_pairs_are_refused() {
    let text = b64(&le_bytes(&[1]));
    assert_eq!(parse_tile_gids(&text, Some("base64"), Some("unknown")), Err(Error::UnsupportedEncodingError));
    assert_eq!(parse_tile_gids("1,2", None, None), Err(Error::UnsupportedEncodingError));
    assert_eq!(parse_tile_gids("1,2", Some("csv"), Some("gzip")), Err(Error::UnsupportedEncodingError));
    assert_eq!(parse_tile_gids("1,2", Some(""), None), Err(Error::UnsupportedEncodingError));
    assert_eq!(parse_tile_gids("1,2", Some("xml"), None), Err(Error::UnsupportedEncodingError));
}

#[test]
fn formats_from_attributes() {
    assert_eq!(PayloadFormat::from_attributes(Some("csv"), None), Ok(PayloadFormat::Csv));
    assert_eq!(PayloadFormat::from_attributes(Some("base64"), None), Ok(PayloadFormat::Base64));
    assert_eq!(PayloadFormat::from_attributes(Some("base64"), Some("gzip")), Ok(PayloadFormat::Base64Gzip));
    assert_eq!(PayloadFormat::from_attributes(Some("base64"), Some("zlib")), Ok(PayloadFormat::Base64Zlib));
    assert_eq!(PayloadFormat::from_attributes(Some("base64"), Some("zstd")), Ok(PayloadFormat::Base64Zstd));
    assert_eq!(PayloadFormat::from_attributes(Some("CSV"), None), Err(Error::UnsupportedEncodingError));
}

#[test]
fn trim_removes_unicode_whitespace() {
    assert_eq!(tiled_map::codec::trim("\u{3000} a b\u{a0}\n"), "a b");
    assert_eq!(tiled_map::codec::trim("   "), "");
}
