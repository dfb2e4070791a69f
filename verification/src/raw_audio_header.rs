//! The raw binary audio header that a cache's header package stores for
//! each audio file.
//!
//! Layout (all integers little-endian): a 16-byte hash; a `u32` count of
//! merged file paths, each path a `u32` length and that many UTF-8 bytes; a
//! `u32` argument length and the UTF-8 arguments, followed by a NUL byte
//! when they are not empty; file type, format tag and an unknown `u32`; an
//! unknown block of 28 bytes for file type `0x87` and of 24 bytes otherwise;
//! the sample rate (`u32`); bits per sample and channels (one byte each);
//! an unknown `u32`, average bytes per second (`u32`), block align (`u16`)
//! and samples per block (`u16`); 12 unknown bytes; the stream size (`u32`).

use vstd::prelude::*;
use vstd::string::StringSliceAdditionalSpecFns;
use vstd::utf8::*;

use crate::le_bytes::{read_u16_le, read_u32_le, spec_u16_le, spec_u32_le};
use crate::text::str_from_utf8;

verus! {

/// Why an audio header could not be parsed.
#[derive(Debug, Clone, Copy, PartialEq, Eq, Structural)]
pub enum AudioHeaderError {
    /// A field at `offset` of `len` bytes reaches past the end of the
    /// `data_len` bytes of header data.
    Truncated { offset: usize, len: usize, data_len: usize },
    /// A path or the argument string is not valid UTF-8.
    InvalidUtf8,
}

/// Represents the raw parsed binary audio header read from a cache metadata node.
pub struct RawAudioHeader<'a> {
    /// Unique hash identifying the audio asset.
    pub hash: &'a [u8; 16],
    /// Number of merged/sub-files referenced by this header.
    pub merged_file_count: u32,
    /// Paths of the merged/sub-files.
    pub file_paths: Vec<&'a str>,
    /// Length of the arguments string.
    pub arguments_length: u32,
    /// Arguments string passed for configuration.
    pub arguments: &'a str,
    /// File type indicator (e.g., 0x87 for early audio).
    pub file_type: u32,
    /// Format tag identifying the audio format (e.g. PCM, ADPCM, xWMA).
    pub format_tag: u32,
    /// Unknown metadata field 1.
    pub unknown1: u32,
    /// Unknown metadata segment 2.
    pub unknown2: &'a [u8],
    /// Number of audio samples per second (sample rate).
    pub samples_per_second: u32,
    /// Bit depth of each audio sample.
    pub bits_per_sample: u8,
    /// Number of audio channels.
    pub channels: u8,
    /// Unknown metadata field 3.
    pub unknown3: u32,
    /// Average bytes per second of the audio stream.
    pub average_bytes_per_second: u32,
    /// Block alignment size.
    pub block_align: u16,
    /// Number of samples per block.
    pub samples_per_block: u16,
    /// Unknown metadata field 4.
    pub unknown4: &'a [u8; 12],
    /// Size of the raw compressed audio stream.
    pub size: u32,
}

/// The fields of an audio header, strings and byte blocks given by their
/// bytes.
pub struct RawAudioHeaderModel {
    pub hash: Seq<u8>,
    pub merged_file_count: u32,
    pub file_paths: Seq<Seq<u8>>,
    pub arguments_length: u32,
    pub arguments: Seq<u8>,
    pub file_type: u32,
    pub format_tag: u32,
    pub unknown1: u32,
    pub unknown2: Seq<u8>,
    pub samples_per_second: u32,
    pub bits_per_sample: u8,
    pub channels: u8,
    pub unknown3: u32,
    pub average_bytes_per_second: u32,
    pub block_align: u16,
    pub samples_per_block: u16,
    pub unknown4: Seq<u8>,
    pub size: u32,
}

impl<'a> RawAudioHeader<'a> {
    /// The header's fields as values.
    pub open spec fn model(&self) -> RawAudioHeaderModel {
        RawAudioHeaderModel {
            hash: self.hash@,
            merged_file_count: self.merged_file_count,
            file_paths: self.file_paths@.map_values(|p: &str| p.spec_bytes()),
            arguments_length: self.arguments_length,
            arguments: self.arguments.spec_bytes(),
            file_type: self.file_type,
            format_tag: self.format_tag,
            unknown1: self.unknown1,
            unknown2: self.unknown2@,
            samples_per_second: self.samples_per_second,
            bits_per_sample: self.bits_per_sample,
            channels: self.channels,
            unknown3: self.unknown3,
            average_bytes_per_second: self.average_bytes_per_second,
            block_align: self.block_align,
            samples_per_block: self.samples_per_block,
            unknown4: self.unknown4@,
            size: self.size,
        }
    }
}

/// The error for a field at `offset` of `len` bytes that does not fit in
/// `data`.
pub open spec fn truncated(data: Seq<u8>, offset: int, len: int) -> AudioHeaderError {
    AudioHeaderError::Truncated { offset: offset as usize, len: len as usize, data_len: data.len() as usize }
}

/// The little-endian `u32` at `offset`.
pub open spec fn u32_at(data: Seq<u8>, offset: int) -> u32 {
    spec_u32_le(data.subrange(offset, offset + 4))
}

/// The little-endian `u16` at `offset`.
pub open spec fn u16_at(data: Seq<u8>, offset: int) -> u16 {
    spec_u16_le(data.subrange(offset, offset + 2))
}

/// Parses `count` length-prefixed UTF-8 paths starting at `offset`: the
/// bytes of each path and the offset just past the last one.
pub open spec fn spec_parse_paths(data: Seq<u8>, offset: int, count: nat) -> Result<
    (Seq<Seq<u8>>, int),
    AudioHeaderError,
>
    decreases count,
{
    if count == 0 {
        Ok((Seq::empty(), offset))
    } else {
        match spec_parse_paths(data, offset, (count - 1) as nat) {
            Err(e) => Err(e),
            Ok((paths, off)) => {
                if off + 4 > data.len() {
                    Err(truncated(data, off, 4))
                } else {
                    let path_len = u32_at(data, off) as int;
                    if off + 4 + path_len > data.len() {
                        Err(truncated(data, off + 4, path_len))
                    } else {
                        let path = data.subrange(off + 4, off + 4 + path_len);
                        if !valid_utf8(path) {
                            Err(AudioHeaderError::InvalidUtf8)
                        } else {
                            Ok((paths.push(path), off + 4 + path_len))
                        }
                    }
                }
            },
        }
    }
}

/// Parses the fixed-size fields that follow the argument string, starting
/// at `o4`; `paths` and `arguments` were parsed before them.
pub open spec fn spec_parse_tail(
    data: Seq<u8>,
    o4: int,
    paths: Seq<Seq<u8>>,
    arguments: Seq<u8>,
) -> Result<RawAudioHeaderModel, AudioHeaderError> {
    let n = data.len() as int;
    if o4 + 12 > n {
        Err(truncated(data, o4, 12))
    } else {
        let file_type = u32_at(data, o4);
        let o5 = o4 + 12;
        let unknown2_len: int = if file_type == 0x87 {
            28
        } else {
            24
        };
        if o5 + unknown2_len > n {
            Err(truncated(data, o5, unknown2_len))
        } else {
            let o6 = o5 + unknown2_len;
            if o6 + 4 > n {
                Err(truncated(data, o6, 4))
            } else {
                let o7 = o6 + 4;
                if o7 + 2 > n {
                    Err(truncated(data, o7, 2))
                } else {
                    let o8 = o7 + 2;
                    if o8 + 12 > n {
                        Err(truncated(data, o8, 12))
                    } else {
                        let o9 = o8 + 12;
                        if o9 + 16 > n {
                            Err(truncated(data, o9, 16))
                        } else {
                            Ok(
                                RawAudioHeaderModel {
                                    hash: data.subrange(0, 16),
                                    merged_file_count: u32_at(data, 16),
                                    file_paths: paths,
                                    arguments_length: arguments.len() as u32,
                                    arguments,
                                    file_type,
                                    format_tag: u32_at(data, o4 + 4),
                                    unknown1: u32_at(data, o4 + 8),
                                    unknown2: data.subrange(o5, o6),
                                    samples_per_second: u32_at(data, o6),
                                    bits_per_sample: data[o7],
                                    channels: data[o7 + 1],
                                    unknown3: u32_at(data, o8),
                                    average_bytes_per_second: u32_at(data, o8 + 4),
                                    block_align: u16_at(data, o8 + 8),
                                    samples_per_block: u16_at(data, o8 + 10),
                                    unknown4: data.subrange(o9, o9 + 12),
                                    size: u32_at(data, o9 + 12),
                                },
                            )
                        }
                    }
                }
            }
        }
    }
}

/// Parses a whole audio header.
pub open spec fn spec_parse_raw_audio_header(data: Seq<u8>) -> Result<
    RawAudioHeaderModel,
    AudioHeaderError,
> {
    let n = data.len() as int;
    if 20 > n {
        Err(truncated(data, 0, 20))
    } else {
        match spec_parse_paths(data, 20, u32_at(data, 16) as nat) {
            Err(e) => Err(e),
            Ok((paths, o1)) => {
                if o1 + 4 > n {
                    Err(truncated(data, o1, 4))
                } else {
                    let arg_len = u32_at(data, o1) as int;
                    let o2 = o1 + 4;
                    if o2 + arg_len > n {
                        Err(truncated(data, o2, arg_len))
                    } else {
                        let arguments = data.subrange(o2, o2 + arg_len);
                        if !valid_utf8(arguments) {
                            Err(AudioHeaderError::InvalidUtf8)
                        } else {
                            let o3 = o2 + arg_len;
                            if arg_len > 0 && o3 + 1 > n {
                                Err(truncated(data, o3, 1))
                            } else {
                                let o4 = if arg_len > 0 {
                                    o3 + 1
                                } else {
                                    o3
                                };
                                spec_parse_tail(data, o4, paths, arguments)
                            }
                        }
                    }
                }
            },
        }
    }
}

proof fn lemma_paths_error_persists(data: Seq<u8>, offset: int, k1: nat, k2: nat)
    requires
        k1 <= k2,
        spec_parse_paths(data, offset, k1) is Err,
    ensures
        spec_parse_paths(data, offset, k2) == spec_parse_paths(data, offset, k1),
    decreases k2,
{
    if k2 > k1 {
        lemma_paths_error_persists(data, offset, k1, (k2 - 1) as nat);
    }
}

/// Checks that `len` bytes from `offset` lie within `data`.
pub fn check_bounds(data: &[u8], offset: usize, len: usize) -> (res: Result<(), AudioHeaderError>)
    ensures
        res is Ok <==> offset + len <= data.len(),
        res is Err ==> res == Err::<(), AudioHeaderError>(truncated(data@, offset as int, len as int)),
{
    if offset > data.len() || len > data.len() - offset {
        return Err(AudioHeaderError::Truncated { offset, len, data_len: data.len() });
    }
    Ok(())
}

/// Views `s` as an array reference with `<&[u8; N]>::try_from` from the
/// standard library, which succeeds exactly when the slice has `N` elements
/// and then refers to the same elements.
#[verifier::external_body]
fn slice_as_array<'a, const N: usize>(s: &'a [u8]) -> (r: &'a [u8; N])
    requires
        s@.len() == N,
    ensures
        r@ == s@,
{
    s.try_into().unwrap()
}

/// The `u32` stored little-endian at `offset`.
fn read_u32_at(data: &[u8], offset: usize) -> (v: u32)
    requires
        offset + 4 <= data.len(),
    ensures
        v == u32_at(data@, offset as int),
{
    read_u32_le(vstd::slice::slice_subrange(data, offset, offset + 4))
}

/// The `u16` stored little-endian at `offset`.
fn read_u16_at(data: &[u8], offset: usize) -> (v: u16)
    requires
        offset + 2 <= data.len(),
    ensures
        v == u16_at(data@, offset as int),
{
    read_u16_le(vstd::slice::slice_subrange(data, offset, offset + 2))
}

impl<'a> RawAudioHeader<'a> {
    /// Parses an audio header from the start of `data`.
    pub fn parse(data: &'a [u8]) -> (res: Result<RawAudioHeader<'a>, AudioHeaderError>)
        ensures
            match res {
                Ok(h) => spec_parse_raw_audio_header(data@) matches Ok(m) && h.model() == m,
                Err(e) => spec_parse_raw_audio_header(data@) == Err::<RawAudioHeaderModel, AudioHeaderError>(e),
            },
    {
        let ghost d = data@;
        if let Err(e) = check_bounds(data, 0, 20) {
            return Err(e);
        }
        let hash = vstd::slice::slice_subrange(data, 0, 16);
        let merged_file_count = read_u32_at(data, 16);

        let mut offset: usize = 20;
        let mut file_paths: Vec<&'a str> = Vec::new();
        let mut i: u32 = 0;
        assert(file_paths@.map_values(|p: &str| p.spec_bytes()) =~= Seq::<Seq<u8>>::empty());
        while i < merged_file_count
            invariant
                d == data@,
                20 <= d.len(),
                merged_file_count == u32_at(d, 16),
                i <= merged_file_count,
                offset <= data@.len(),
                spec_parse_paths(d, 20, i as nat) == Ok::<(Seq<Seq<u8>>, int), AudioHeaderError>(
                    (file_paths@.map_values(|p: &str| p.spec_bytes()), offset as int),
                ),
            decreases merged_file_count - i,
        {
            let ghost paths_before = file_paths@;
            proof {
                if spec_parse_paths(d, 20, (i + 1) as nat) is Err {
                    lemma_paths_error_persists(d, 20, (i + 1) as nat, merged_file_count as nat);
                }
            }
            if let Err(e) = check_bounds(data, offset, 4) {
            return Err(e);
        }
            let path_length = read_u32_at(data, offset) as usize;
            if let Err(e) = check_bounds(data, offset + 4, path_length) {
            return Err(e);
        }
            let path_bytes = vstd::slice::slice_subrange(data, offset + 4, offset + 4 + path_length);
            let path = match str_from_utf8(path_bytes) {
                Some(p) => p,
                None => return Err(AudioHeaderError::InvalidUtf8),
            };
            file_paths.push(path);
            offset = offset + 4 + path_length;
            i += 1;
            assert(file_paths@.map_values(|p: &str| p.spec_bytes()) =~= paths_before.map_values(
                |p: &str| p.spec_bytes(),
            ).push(path_bytes@));
        }

        if let Err(e) = check_bounds(data, offset, 4) {
            return Err(e);
        }
        let arguments_length = read_u32_at(data, offset);
        offset += 4;

        if let Err(e) = check_bounds(data, offset, arguments_length as usize) {
            return Err(e);
        }
        let argument_bytes = vstd::slice::slice_subrange(
            data,
            offset,
            offset + arguments_length as usize,
        );
        let arguments = match str_from_utf8(argument_bytes) {
            Some(a) => a,
            None => return Err(AudioHeaderError::InvalidUtf8),
        };
        offset += arguments_length as usize;

        // A non-empty argument string is followed by a NUL byte.
        if arguments_length > 0 {
            if let Err(e) = check_bounds(data, offset, 1) {
            return Err(e);
        }
            offset += 1;
        }

        if let Err(e) = check_bounds(data, offset, 12) {
            return Err(e);
        }
        let file_type = read_u32_at(data, offset);
        let format_tag = read_u32_at(data, offset + 4);
        let unknown1 = read_u32_at(data, offset + 8);
        offset += 12;

        // Early headers (file type 0x87) have a longer unknown block.
        let unknown2_len: usize = if file_type == 0x87 {
            28
        } else {
            24
        };
        if let Err(e) = check_bounds(data, offset, unknown2_len) {
            return Err(e);
        }
        let unknown2 = vstd::slice::slice_subrange(data, offset, offset + unknown2_len);
        offset += unknown2_len;

        if let Err(e) = check_bounds(data, offset, 4) {
            return Err(e);
        }
        let samples_per_second = read_u32_at(data, offset);
        offset += 4;

        if let Err(e) = check_bounds(data, offset, 2) {
            return Err(e);
        }
        let bits_per_sample = data[offset];
        let channels = data[offset + 1];
        offset += 2;

        if let Err(e) = check_bounds(data, offset, 12) {
            return Err(e);
        }
        let unknown3 = read_u32_at(data, offset);
        let average_bytes_per_second = read_u32_at(data, offset + 4);
        let block_align = read_u16_at(data, offset + 8);
        let samples_per_block = read_u16_at(data, offset + 10);
        offset += 12;

        if let Err(e) = check_bounds(data, offset, 16) {
            return Err(e);
        }
        let unknown4 = vstd::slice::slice_subrange(data, offset, offset + 12);
        let size = read_u32_at(data, offset + 12);

        let header = RawAudioHeader {
            hash: slice_as_array(hash),
            merged_file_count,
            file_paths,
            arguments_length,
            arguments,
            file_type,
            format_tag,
            unknown1,
            unknown2,
            samples_per_second,
            bits_per_sample,
            channels,
            unknown3,
            average_bytes_per_second,
            block_align,
            samples_per_block,
            unknown4: slice_as_array(unknown4),
            size,
        };
        Ok(header)
    }
}

} // verus!
