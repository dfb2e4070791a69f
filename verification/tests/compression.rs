use lotus_lib::pre_ensmallening::{
    decompress_custom_lz, decompress_pre_ensmallening, LzError, PreEnsmalleningError,
};

#[test]
fn lz_literal_run_copies_bytes() {
    let out = decompress_custom_lz(&[2, b'a', b'b', b'c'], 3).unwrap();
    assert_eq!(out, b"abc".to_vec());
}

#[test]
fn lz_output_is_zero_padded_to_requested_length() {
    let out = decompress_custom_lz(&[1, 7, 9], 5).unwrap();
    assert_eq!(out, vec![7, 9, 0, 0, 0]);
}

#[test]
fn lz_overlapping_match_repeats_pattern() {
    // "abc" as literals, then a match of length 1 + 2 = 3... code 0x20: length
    // field 1, distance high bits 0; distance byte 2 => copy from 3 bytes back.
    let comp = [2, b'a', b'b', b'c', 0x20, 2, 0x40, 2];
    // second match: length field 2 => 4 bytes, from 3 back (overlapping).
    let out = decompress_custom_lz(&comp, 10).unwrap();
    assert_eq!(out, b"abcabcabca".to_vec());
}

#[test]
fn lz_long_match_uses_length_extension() {
    // literal 'x', then code 0xE0: length field 7 extended by 3 => 10, +2 = 12 bytes,
    // distance 0 => repeat the previous byte.
    let comp = [0, b'x', 0xE0, 3, 0];
    let out = decompress_custom_lz(&comp, 13).unwrap();
    assert_eq!(out, vec![b'x'; 13]);
}

#[test]
fn lz_errors() {
    assert_eq!(decompress_custom_lz(&[2, 1, 2, 3], 2), Err(LzError::LiteralOverflow));
    assert_eq!(decompress_custom_lz(&[2, 1, 2], 5), Err(LzError::LiteralOverrun));
    assert_eq!(decompress_custom_lz(&[0, 1, 0xE0], 20), Err(LzError::LengthOverrun));
    assert_eq!(decompress_custom_lz(&[0, 1, 0x20], 20), Err(LzError::DistanceOverrun));
    assert_eq!(decompress_custom_lz(&[0, 1, 0x20, 0], 2), Err(LzError::DictOverflow));
    assert_eq!(decompress_custom_lz(&[0, 1, 0x20, 1], 20), Err(LzError::NegativeLookbehind));
    assert_eq!(decompress_custom_lz(&[0x20, 0], 20), Err(LzError::NegativeLookbehind));
}

#[test]
fn lz_error_messages() {
    assert_eq!(LzError::NegativeLookbehind.message(), "Negative lookbehind offset");
    assert_eq!(
        LzError::LiteralOverflow.message(),
        "Decompression buffer overflow in literal copy"
    );
}

#[test]
fn lz_literal_runs_of_more_than_32_bytes_round_trip() {
    let data: Vec<u8> = (0..70u8).collect();
    let mut comp = Vec::new();
    for chunk in data.chunks(32) {
        comp.push((chunk.len() - 1) as u8);
        comp.extend_from_slice(chunk);
    }
    assert_eq!(decompress_custom_lz(&comp, data.len()).unwrap(), data);
}

fn stored_block(payload: &[u8]) -> Vec<u8> {
    let n = payload.len() as u16;
    let mut v = n.to_be_bytes().to_vec();
    v.extend_from_slice(&n.to_be_bytes());
    v.extend_from_slice(payload);
    v
}

#[test]
fn pre_ensmallening_stored_block() {
    let data = stored_block(b"hello");
    assert_eq!(decompress_pre_ensmallening(&data, 5).unwrap(), b"hello".to_vec());
}

#[test]
fn pre_ensmallening_empty_input() {
    assert_eq!(decompress_pre_ensmallening(&[], 0).unwrap(), Vec::<u8>::new());
}

#[test]
fn pre_ensmallening_lz_block() {
    // compressed length 4, decompressed length 6
    let data = [0, 4, 0, 6, 0, b'z', 0x60, 0];
    assert_eq!(decompress_pre_ensmallening(&data, 6).unwrap(), vec![b'z'; 6]);
}

#[test]
fn pre_ensmallening_concatenated_blocks() {
    let mut data = stored_block(b"ab");
    data.extend_from_slice(&[0, 4, 0, 6, 0, b'z', 0x60, 0]);
    data.extend_from_slice(&stored_block(b"cd"));
    assert_eq!(decompress_pre_ensmallening(&data, 10).unwrap(), b"abzzzzzzcd".to_vec());
}

#[test]
fn pre_ensmallening_errors() {
    assert_eq!(
        decompress_pre_ensmallening(&[0, 1, 0], 1),
        Err(PreEnsmalleningError::BlockHeaderIncomplete)
    );
    assert_eq!(
        decompress_pre_ensmallening(&[0, 3, 0, 3, 1, 2], 3),
        Err(PreEnsmalleningError::BlockDataIncomplete)
    );
    assert_eq!(
        decompress_pre_ensmallening(&[0, 2, 0, 5, 0x20, 0], 5),
        Err(PreEnsmalleningError::CustomLz(LzError::NegativeLookbehind))
    );
}
