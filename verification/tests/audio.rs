use lotus_lib::audio::{
    assemble_audio_payload, audio_file_name, has_audio_extension, is_audio_header,
    deleted_fallback_path, extract_audio, has_deleted_marker, AudioExtractError, opus_needs_b_part, opus_page_layout,
    pcm_samples_to_le_bytes, remove_deleted_marker, AudioPayloadError,
};
use lotus_lib::audio_format::{AudioFormatError, AudioKind, CompressionFormat};
use lotus_lib::opus::{append_decoded, open_opus_decoder, split_packets, OpusPcmError};
use lotus_lib::raw_audio_header::{check_bounds, AudioHeaderError, RawAudioHeader};

fn header_bytes(file_type: u32, paths: &[&str], arguments: &str) -> Vec<u8> {
    let mut v: Vec<u8> = (0u8..16).collect();
    v.extend_from_slice(&(paths.len() as u32).to_le_bytes());
    for p in paths {
        v.extend_from_slice(&(p.len() as u32).to_le_bytes());
        v.extend_from_slice(p.as_bytes());
    }
    v.extend_from_slice(&(arguments.len() as u32).to_le_bytes());
    v.extend_from_slice(arguments.as_bytes());
    if !arguments.is_empty() {
        v.push(0);
    }
    v.extend_from_slice(&file_type.to_le_bytes());
    v.extend_from_slice(&7u32.to_le_bytes()); // format tag
    v.extend_from_slice(&0xAABBCCDDu32.to_le_bytes()); // unknown1
    let unknown2_len = if file_type == 0x87 { 28 } else { 24 };
    v.extend(std::iter::repeat(0x55u8).take(unknown2_len));
    v.extend_from_slice(&48000u32.to_le_bytes());
    v.push(16);
    v.push(2);
    v.extend_from_slice(&1u32.to_le_bytes()); // unknown3
    v.extend_from_slice(&96000u32.to_le_bytes());
    v.extend_from_slice(&0x0102u16.to_le_bytes());
    v.extend_from_slice(&0x0304u16.to_le_bytes());
    v.extend(std::iter::repeat(0x66u8).take(12));
    v.extend_from_slice(&123456u32.to_le_bytes());
    v
}

#[test]
fn raw_header_parses_all_fields() {
    let data = header_bytes(0x8B, &["a/b.wav", "c"], "args");
    let h = RawAudioHeader::parse(&data).unwrap();
    assert_eq!(h.hash, &[0, 1, 2, 3, 4, 5, 6, 7, 8, 9, 10, 11, 12, 13, 14, 15]);
    assert_eq!(h.merged_file_count, 2);
    assert_eq!(h.file_paths, vec!["a/b.wav", "c"]);
    assert_eq!(h.arguments_length, 4);
    assert_eq!(h.arguments, "args");
    assert_eq!(h.file_type, 0x8B);
    assert_eq!(h.format_tag, 7);
    assert_eq!(h.unknown1, 0xAABBCCDD);
    assert_eq!(h.unknown2, &[0x55u8; 24][..]);
    assert_eq!(h.samples_per_second, 48000);
    assert_eq!(h.bits_per_sample, 16);
    assert_eq!(h.channels, 2);
    assert_eq!(h.unknown3, 1);
    assert_eq!(h.average_bytes_per_second, 96000);
    assert_eq!(h.block_align, 0x0102);
    assert_eq!(h.samples_per_block, 0x0304);
    assert_eq!(h.unknown4, &[0x66u8; 12]);
    assert_eq!(h.size, 123456);
}

#[test]
fn raw_header_early_format_has_longer_unknown_block() {
    let data = header_bytes(0x87, &[], "");
    let h = RawAudioHeader::parse(&data).unwrap();
    assert_eq!(h.unknown2.len(), 28);
    assert_eq!(h.samples_per_second, 48000);
    assert_eq!(h.size, 123456);
    assert!(h.file_paths.is_empty());
    assert_eq!(h.arguments, "");
}

#[test]
fn raw_header_truncated() {
    let data = header_bytes(0x8B, &["x"], "");
    let err = RawAudioHeader::parse(&data[..data.len() - 1]).err().unwrap();
    let cut = data.len() - 1;
    assert_eq!(err, AudioHeaderError::Truncated { offset: cut - 15, len: 16, data_len: cut });
    assert_eq!(
        RawAudioHeader::parse(&data[..10]).err().unwrap(),
        AudioHeaderError::Truncated { offset: 0, len: 20, data_len: 10 }
    );
}

#[test]
fn raw_header_path_length_past_end() {
    let mut data: Vec<u8> = vec![0; 16];
    data.extend_from_slice(&1u32.to_le_bytes());
    data.extend_from_slice(&100u32.to_le_bytes());
    assert_eq!(
        RawAudioHeader::parse(&data).err().unwrap(),
        AudioHeaderError::Truncated { offset: 24, len: 100, data_len: 24 }
    );
}

#[test]
fn raw_header_invalid_utf8() {
    let mut data = header_bytes(0x8B, &["ab"], "");
    data[24] = 0xFF;
    assert_eq!(RawAudioHeader::parse(&data).err().unwrap(), AudioHeaderError::InvalidUtf8);
}

#[test]
fn check_bounds_cases() {
    let data = [0u8; 10];
    assert!(check_bounds(&data, 0, 10).is_ok());
    assert!(check_bounds(&data, 10, 0).is_ok());
    assert_eq!(
        check_bounds(&data, 8, 3),
        Err(AudioHeaderError::Truncated { offset: 8, len: 3, data_len: 10 })
    );
    assert!(check_bounds(&data, 11, 0).is_err());
    assert!(check_bounds(&data, 1, usize::MAX).is_err());
}

#[test]
fn compression_format_from_tag() {
    assert_eq!(CompressionFormat::try_from(0u32), Ok(CompressionFormat::PCM));
    assert_eq!(CompressionFormat::try_from(1u32), Ok(CompressionFormat::PCM));
    assert_eq!(CompressionFormat::try_from(5u32), Ok(CompressionFormat::ADPCM));
    assert_eq!(CompressionFormat::try_from(7u32), Ok(CompressionFormat::Opus));
    assert_eq!(
        CompressionFormat::try_from(2u32),
        Err(AudioFormatError::UnknownCompressionFormat)
    );
}

#[test]
fn audio_kind_from_file_type() {
    assert_eq!(AudioKind::try_from(0x87u32), Ok(AudioKind::Audio135));
    assert_eq!(AudioKind::try_from(0x8Bu32), Ok(AudioKind::Audio139));
    assert_eq!(AudioKind::try_from(0x88u32), Err(AudioFormatError::UnknownAudioKind));
    assert_eq!(AudioKind::Audio135.file_type(), 0x87);
    assert_eq!(AudioKind::Audio139.file_type(), 0x8B);
}

#[test]
fn audio_detection() {
    assert!(has_audio_extension("Voice.wav"));
    assert!(!has_audio_extension("Voice.png"));
    assert!(!has_audio_extension("wav"));
    assert!(is_audio_header(&header_bytes(0x8B, &[], "")));
    assert!(is_audio_header(&header_bytes(0x87, &["p"], "x")));
    assert!(!is_audio_header(&header_bytes(0x99, &[], "")));
    assert!(!is_audio_header(&[1, 2, 3]));
}

#[test]
fn deleted_marker_removal() {
    assert_eq!(remove_deleted_marker("/Lotus/Voice.deleted.wav"), "/Lotus/Voice.wav");
    assert_eq!(remove_deleted_marker("/a.deleted/b.deleted"), "/a/b");
    assert_eq!(remove_deleted_marker("/plain.wav"), "/plain.wav");
    assert_eq!(remove_deleted_marker(".deleted"), "");
    assert_eq!(remove_deleted_marker(".delete"), ".delete");
}

#[test]
fn extracted_file_names() {
    assert_eq!(audio_file_name("Voice.wav", CompressionFormat::PCM), "Voice.wav");
    assert_eq!(audio_file_name("Voice.wav", CompressionFormat::ADPCM), "Voice.wav");
    assert_eq!(audio_file_name("Voice.wav", CompressionFormat::XWMA), "Voice.xwma");
    assert_eq!(audio_file_name("Voice.deleted.wav", CompressionFormat::Opus), "Voice.deleted.opus");
    assert_eq!(audio_file_name("NoDot", CompressionFormat::Opus), "NoDot.opus");
}

#[test]
fn payload_assembly_pcm_takes_tail_of_b_then_f() {
    let f = [5u8, 6, 7];
    let b = [1u8, 2];
    let p = assemble_audio_payload(CompressionFormat::PCM, Some(&f), Some(&b), 4).unwrap();
    assert_eq!(p, vec![2, 5, 6, 7]);
    let p = assemble_audio_payload(CompressionFormat::XWMA, None, Some(&b), 2).unwrap();
    assert_eq!(p, vec![1, 2]);
    assert_eq!(
        assemble_audio_payload(CompressionFormat::ADPCM, Some(&f), None, 4),
        Err(AudioPayloadError::PayloadIncomplete)
    );
}

#[test]
fn payload_assembly_opus_takes_head_of_f_then_b() {
    let f = [5u8, 6, 7];
    let b = [1u8, 2];
    let p = assemble_audio_payload(CompressionFormat::Opus, Some(&f), Some(&b), 3).unwrap();
    assert_eq!(p, vec![5, 6, 7]);
    let p = assemble_audio_payload(CompressionFormat::Opus, Some(&f), Some(&b), 4).unwrap();
    assert_eq!(p, vec![5, 6, 7, 1]);
    let p = assemble_audio_payload(CompressionFormat::Opus, None, Some(&b), 1).unwrap();
    assert_eq!(p, vec![1]);
    assert_eq!(
        assemble_audio_payload(CompressionFormat::Opus, None, None, 1),
        Err(AudioPayloadError::PayloadIncomplete)
    );
    assert!(opus_needs_b_part(None, 3));
    assert!(opus_needs_b_part(Some(2), 3));
    assert!(!opus_needs_b_part(Some(3), 3));
}

#[test]
fn pcm_bytes_are_little_endian() {
    assert_eq!(pcm_samples_to_le_bytes(&[0x0102, -1, -32768]), vec![2, 1, 0xFF, 0xFF, 0, 0x80]);
    assert_eq!(pcm_samples_to_le_bytes(&[]), Vec::<u8>::new());
}

#[test]
fn opus_pages_cover_the_stream() {
    let pages = opus_page_layout(250, 2, 48000);
    assert_eq!(pages.len(), 3);
    assert_eq!((pages[0].start, pages[0].end, pages[0].header_type), (0, 100, 0));
    assert_eq!((pages[1].start, pages[1].end, pages[1].header_type), (100, 200, 0));
    assert_eq!((pages[2].start, pages[2].end, pages[2].header_type), (200, 250, 4));
    assert_eq!(pages[0].granule_position, 48000);
    assert_eq!(pages[2].granule_position, 144000);
    assert_eq!(pages[0].page_sequence_number, 2);
    assert_eq!(pages[2].page_sequence_number, 4);
    let exact = opus_page_layout(200, 2, 10);
    assert_eq!(exact.len(), 2);
    assert_eq!(exact[1].header_type, 0);
    assert!(opus_page_layout(0, 2, 10).is_empty());
}

#[test]
fn opus_decoder_rejects_bad_parameters() {
    assert_eq!(open_opus_decoder(44100, 2).err(), Some(OpusPcmError::DecoderCreation));
    assert_eq!(open_opus_decoder(48000, 3).err(), Some(OpusPcmError::DecoderCreation));
    assert_eq!(open_opus_decoder(48000, 0).err(), Some(OpusPcmError::DecoderCreation));
    assert!(open_opus_decoder(48000, 2).is_ok());
    assert!(open_opus_decoder(8000, 1).is_ok());
}

#[test]
fn opus_stream_is_cut_into_block_align_packets() {
    let payload = [1u8, 2, 3, 4, 5, 6, 7];
    let packets = split_packets(&payload, 3);
    assert_eq!(packets, vec![&[1u8, 2, 3][..], &[4, 5, 6][..], &[7][..]]);
    let exact = split_packets(&payload[..6], 3);
    assert_eq!(exact, vec![&[1u8, 2, 3][..], &[4, 5, 6][..]]);
    assert!(split_packets(&[], 3).is_empty());
    assert_eq!(split_packets(&payload, 100), vec![&payload[..]]);
}

#[test]
fn decoded_packet_samples_are_appended() {
    let buffer = [10i16, 11, 12, 13, 14, 15];
    let mut out = vec![1i16];
    assert_eq!(append_decoded(&mut out, &buffer, Some(2), 2), Ok(()));
    assert_eq!(out, vec![1, 10, 11, 12, 13]);
    assert_eq!(append_decoded(&mut out, &buffer, None, 2), Ok(()));
    assert_eq!(out, vec![1, 10, 11, 12, 13]);
    assert_eq!(append_decoded(&mut out, &buffer, Some(4), 2), Err(OpusPcmError::DecodedFrameTooLarge));
    assert_eq!(out, vec![1, 10, 11, 12, 13]);
    assert_eq!(append_decoded(&mut out, &buffer, Some(usize::MAX), 2), Err(OpusPcmError::DecodedFrameTooLarge));
    assert_eq!(append_decoded(&mut out, &buffer, Some(6), 1), Ok(()));
    assert_eq!(out.len(), 11);
}

#[test]
fn deleted_marker_fallback_path() {
    assert!(has_deleted_marker("/Lotus/Sound.deleted.wav"));
    assert!(!has_deleted_marker("/Lotus/Sound.wav"));
    assert!(!has_deleted_marker(".del"));
    assert_eq!(
        deleted_fallback_path("/Lotus/Sound.deleted.wav", false, false),
        Some("/Lotus/Sound.wav".to_string())
    );
    assert_eq!(deleted_fallback_path("/Lotus/Sound.deleted.wav", true, false), None);
    assert_eq!(deleted_fallback_path("/Lotus/Sound.deleted.wav", false, true), None);
    assert_eq!(deleted_fallback_path("/Lotus/Sound.wav", false, false), None);
}

fn header_with(format_tag: u32, size: u32) -> Vec<u8> {
    let mut v = header_bytes(0x8B, &[], "");
    v[28..32].copy_from_slice(&format_tag.to_le_bytes());
    let n = v.len();
    v[n - 4..].copy_from_slice(&size.to_le_bytes());
    v
}

#[test]
fn extract_audio_errors_come_from_each_step() {
    assert!(matches!(
        extract_audio(&[0u8; 3], "a.wav", None, None),
        Err(AudioExtractError::Header(_))
    ));
    assert_eq!(
        extract_audio(&header_with(9, 2), "a.wav", None, None).err(),
        Some(AudioExtractError::Format(AudioFormatError::UnknownCompressionFormat))
    );
    assert_eq!(
        extract_audio(&header_with(0, 4), "a.wav", Some(&[1, 2]), None).err(),
        Some(AudioExtractError::Payload(AudioPayloadError::PayloadIncomplete))
    );
}

#[test]
fn extract_audio_gives_stream_and_name() {
    let pcm = extract_audio(&header_with(0, 3), "Voice.wav", Some(&[4, 5]), Some(&[1, 2, 3])).unwrap();
    assert_eq!(pcm.format, CompressionFormat::PCM);
    assert_eq!(pcm.payload, vec![3, 4, 5]);
    assert_eq!(pcm.file_name, "Voice.wav");
    let opus = extract_audio(&header_with(7, 3), "Music.wav", Some(&[1, 2]), Some(&[3, 4])).unwrap();
    assert_eq!(opus.format, CompressionFormat::Opus);
    assert_eq!(opus.payload, vec![1, 2, 3]);
    assert_eq!(opus.file_name, "Music.opus");
}
