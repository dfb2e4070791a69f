//! The decisions and byte handling of audio extraction: which nodes are
//! audio, where an audio stream's bytes lie in the data of a cache's `F`
//! and `B` parts, the name of the extracted file, how an Opus stream is cut
//! into Ogg pages, and 16-bit PCM encoding.

use vstd::prelude::*;
use vstd::string::{StringExecFns, StrSliceExecFns};

use crate::audio_format::{
    spec_audio_kind, spec_compression_format, AudioFormatError, AudioKind, CompressionFormat,
};
use crate::raw_audio_header::{spec_parse_raw_audio_header, AudioHeaderError, RawAudioHeader};
use crate::text::{
    ends_with, last_index_before, normalize_separators, spec_ends_with, str_equal,
    with_deleted_marker,
};
use crate::toc::join_path;

verus! {

/// Why an audio stream could not be extracted.
#[derive(Debug, Clone, Copy, PartialEq, Eq, Structural)]
pub enum AudioPayloadError {
    /// The `F` and `B` parts hold fewer bytes than the header's stream size.
    PayloadIncomplete,
}

/// Whether a node name has the extension of an audio file.
pub fn has_audio_extension(name: &str) -> (res: bool)
    ensures
        res == spec_ends_with(name@, ".wav"@),
{
    ends_with(name, ".wav")
}

/// Whether header data parses as an audio header of a known kind.
pub open spec fn spec_is_audio_header(header_data: Seq<u8>) -> bool {
    match spec_parse_raw_audio_header(header_data) {
        Ok(m) => spec_audio_kind(m.file_type) is Ok,
        Err(_) => false,
    }
}

/// Whether the header data of a `.wav` node describes audio: it parses as
/// an audio header whose file type is a known audio kind.
pub fn is_audio_header(header_data: &[u8]) -> (res: bool)
    ensures
        res == spec_is_audio_header(header_data@),
{
    match RawAudioHeader::parse(header_data) {
        Ok(header) => AudioKind::try_from(header.file_type).is_ok(),
        Err(_) => false,
    }
}

/// `s` with every occurrence of `pat` removed, scanning from the left.
pub open spec fn remove_all(s: Seq<char>, pat: Seq<char>) -> Seq<char>
    decreases s.len(),
{
    if s.len() == 0 {
        s
    } else if pat.len() > 0 && s.len() >= pat.len() && s.subrange(0, pat.len() as int) == pat {
        remove_all(s.subrange(pat.len() as int, s.len() as int), pat)
    } else {
        seq![s[0]] + remove_all(s.subrange(1, s.len() as int), pat)
    }
}

/// The path of a node marked deleted with the `.deleted` marker removed:
/// where the live node of the same file would be.
pub fn remove_deleted_marker(path: &str) -> (res: String)
    ensures
        res@ == remove_all(path@, ".deleted"@),
{
    let marker = ".deleted";
    let n = path.unicode_len();
    let k = marker.unicode_len();
    let mut res = String::new();
    let mut i: usize = 0;
    assert(path@.subrange(0, n as int) =~= path@);
    while i < n
        invariant
            n == path@.len(),
            k == marker@.len(),
            marker@ == ".deleted"@,
            i <= n,
            remove_all(path@, marker@) == res@ + remove_all(path@.subrange(i as int, n as int), marker@),
        decreases n - i,
    {
        let ghost rest = path@.subrange(i as int, n as int);
        if k > 0 && k <= n - i && str_equal(path.substring_char(i, i + k), marker) {
            assert(rest.subrange(0, k as int) =~= path@.subrange(i as int, i + k));
            assert(rest.subrange(k as int, rest.len() as int) =~= path@.subrange(i + k, n as int));
            i += k;
        } else {
            let c = path.substring_char(i, i + 1);
            assert(rest.subrange(1, rest.len() as int) =~= path@.subrange(i + 1, n as int));
            if k > 0 && k <= n - i {
                assert(rest.subrange(0, k as int) =~= path@.subrange(i as int, i + k));
            }
            let ghost before = res@;
            res.append(c);
            assert(c@ =~= seq![rest[0]]);
            assert(before + (seq![rest[0]] + remove_all(rest.subrange(1, rest.len() as int), marker@))
                =~= res@ + remove_all(rest.subrange(1, rest.len() as int), marker@));
            i += 1;
        }
    }
    assert(res@ + remove_all(path@.subrange(n as int, n as int), marker@) =~= res@);
    res
}

/// The extension of the extracted file for a compression format.
pub open spec fn audio_extension(format: CompressionFormat) -> Seq<char> {
    match format {
        CompressionFormat::Opus => ".opus"@,
        CompressionFormat::XWMA => ".xwma"@,
        _ => ".wav"@,
    }
}

/// `name` without its last extension (the part from its last dot on).
pub open spec fn file_stem(name: Seq<char>) -> Seq<char> {
    match last_index_before(name, '.', name.len() as int) {
        Some(pos) => name.subrange(0, pos),
        None => name,
    }
}

/// The name of the file extracted from the node `name` in the format
/// `format`: the stem of `name` with the format's extension.
pub fn audio_file_name(name: &str, format: CompressionFormat) -> (res: String)
    ensures
        res@ == file_stem(name@) + audio_extension(format),
{
    let n = name.unicode_len();
    let mut k: usize = n;
    while k > 0 && name.get_char(k - 1) != '.'
        invariant
            n == name@.len(),
            k <= n,
            last_index_before(name@, '.', n as int) == last_index_before(name@, '.', k as int),
        decreases k,
    {
        k -= 1;
    }
    let mut res = if k > 0 {
        String::from_str(name.substring_char(0, k - 1))
    } else {
        String::from_str(name)
    };
    match format {
        CompressionFormat::Opus => res.append(".opus"),
        CompressionFormat::XWMA => res.append(".xwma"),
        _ => res.append(".wav"),
    }
    res
}

/// Whether the Opus stream also needs the `B` part: when the `F` part is
/// missing or does not hold exactly the stream's `size` bytes.
pub fn opus_needs_b_part(f_len: Option<usize>, size: u32) -> (res: bool)
    ensures
        res == match f_len {
            Some(l) => l != size,
            None => true,
        },
{
    match f_len {
        Some(l) => l != size as usize,
        None => true,
    }
}

/// The bytes of an optional part, none when it is missing.
pub open spec fn part_bytes(part: Option<&[u8]>) -> Seq<u8> {
    match part {
        Some(p) => p@,
        None => Seq::empty(),
    }
}

/// The bytes that the parts provide for an audio stream of `format`: `B`
/// then `F` for PCM, ADPCM and xWMA; `F`, then `B` only when
/// [`opus_needs_b_part`], for Opus.
pub open spec fn spec_audio_parts(
    format: CompressionFormat,
    f_data: Option<&[u8]>,
    b_data: Option<&[u8]>,
    size: u32,
) -> Seq<u8> {
    match format {
        CompressionFormat::Opus => {
            let f = part_bytes(f_data);
            let needs_b = match f_data {
                Some(p) => p@.len() != size,
                None => true,
            };
            if needs_b {
                f + part_bytes(b_data)
            } else {
                f
            }
        },
        _ => part_bytes(b_data) + part_bytes(f_data),
    }
}

/// The audio stream of `size` bytes: the last `size` bytes of the parts for
/// PCM, ADPCM and xWMA, the first `size` for Opus.
pub open spec fn spec_audio_payload(
    format: CompressionFormat,
    f_data: Option<&[u8]>,
    b_data: Option<&[u8]>,
    size: u32,
) -> Result<Seq<u8>, AudioPayloadError> {
    let buffer = spec_audio_parts(format, f_data, b_data, size);
    if buffer.len() < size {
        Err(AudioPayloadError::PayloadIncomplete)
    } else {
        match format {
            CompressionFormat::Opus => Ok(buffer.subrange(0, size as int)),
            _ => Ok(buffer.subrange(buffer.len() - size, buffer.len() as int)),
        }
    }
}

fn append_part(buffer: &mut Vec<u8>, part: Option<&[u8]>)
    ensures
        final(buffer)@ == old(buffer)@ + part_bytes(part),
{
    if let Some(p) = part {
        let ghost before = buffer@;
        buffer.extend_from_slice(p);
        assert(buffer@ =~= before + p@);
    } else {
        assert(buffer@ + Seq::<u8>::empty() =~= buffer@);
    }
}

/// Assembles the stream of an audio file of `format` and `size` bytes from
/// the decompressed data of its `F` and `B` cache parts (each `None` when
/// the part has no node for the file).
pub fn assemble_audio_payload(
    format: CompressionFormat,
    f_data: Option<&[u8]>,
    b_data: Option<&[u8]>,
    size: u32,
) -> (res: Result<Vec<u8>, AudioPayloadError>)
    ensures
        match res {
            Ok(v) => spec_audio_payload(format, f_data, b_data, size) == Ok::<
                Seq<u8>,
                AudioPayloadError,
            >(v@),
            Err(e) => spec_audio_payload(format, f_data, b_data, size) == Err::<
                Seq<u8>,
                AudioPayloadError,
            >(e),
        },
{
    let mut buffer: Vec<u8> = Vec::new();
    let is_opus = match format {
        CompressionFormat::Opus => true,
        _ => false,
    };
    if is_opus {
        append_part(&mut buffer, f_data);
        let f_len = match f_data {
            Some(p) => Some(p.len()),
            None => None,
        };
        if opus_needs_b_part(f_len, size) {
            append_part(&mut buffer, b_data);
        }
    } else {
        append_part(&mut buffer, b_data);
        append_part(&mut buffer, f_data);
    }
    assert(buffer@ =~= spec_audio_parts(format, f_data, b_data, size));
    let size = size as usize;
    if buffer.len() < size {
        return Err(AudioPayloadError::PayloadIncomplete);
    }
    let payload = if is_opus {
        vstd::slice::slice_to_vec(vstd::slice::slice_subrange(buffer.as_slice(), 0, size))
    } else {
        vstd::slice::slice_to_vec(
            vstd::slice::slice_subrange(buffer.as_slice(), buffer.len() - size, buffer.len()),
        )
    };
    Ok(payload)
}

/// Law: the stream of a PCM, ADPCM or xWMA file is the last `size` bytes of
/// the `B` part followed by the `F` part; that of an Opus file is the first
/// `size` bytes of the `F` part, followed by the `B` part only when the `F`
/// part is missing or does not hold exactly `size` bytes. When the parts
/// hold fewer bytes, the stream is incomplete.
pub proof fn law_audio_payload_layout(
    format: CompressionFormat,
    f_data: Option<&[u8]>,
    b_data: Option<&[u8]>,
    size: u32,
)
    ensures
        ({
            let f = match f_data {
                Some(p) => p@,
                None => Seq::<u8>::empty(),
            };
            let b = match b_data {
                Some(p) => p@,
                None => Seq::<u8>::empty(),
            };
            let joined = b + f;
            let opus_bytes = if f_data is Some && f.len() == size {
                f
            } else {
                f + b
            };
            &&& (format == CompressionFormat::PCM || format == CompressionFormat::ADPCM || format
                == CompressionFormat::XWMA) ==> spec_audio_payload(format, f_data, b_data, size) == (
            if joined.len() < size {
                Err(AudioPayloadError::PayloadIncomplete)
            } else {
                Ok(joined.subrange(joined.len() - size, joined.len() as int))
            })
            &&& format == CompressionFormat::Opus ==> spec_audio_payload(format, f_data, b_data, size)
                == (if opus_bytes.len() < size {
                Err(AudioPayloadError::PayloadIncomplete)
            } else {
                Ok(opus_bytes.subrange(0, size as int))
            })
        }),
{
}

/// Why the audio of a node could not be extracted.
#[derive(Debug, Clone, Copy, PartialEq, Eq, Structural)]
pub enum AudioExtractError {
    /// The header data in the `H` part is not an audio header.
    Header(AudioHeaderError),
    /// The header's format tag names no known compression format.
    Format(AudioFormatError),
    /// The `F` and `B` parts do not hold the whole stream.
    Payload(AudioPayloadError),
}

/// The audio of a node: its compression format, its stream and the name of
/// the extracted file.
#[derive(Debug)]
pub struct ExtractedAudio {
    pub format: CompressionFormat,
    pub payload: Vec<u8>,
    pub file_name: String,
}

/// The format, stream and file name of the audio of the node `name`, from
/// the header data of its `H` part and the decompressed data of its `F` and
/// `B` parts: the header gives the format and the stream's size, the parts
/// the stream, and the node's name with the format's extension the file
/// name.
pub open spec fn spec_extract_audio(
    header_data: Seq<u8>,
    name: Seq<char>,
    f_data: Option<&[u8]>,
    b_data: Option<&[u8]>,
) -> Result<(CompressionFormat, Seq<u8>, Seq<char>), AudioExtractError> {
    match spec_parse_raw_audio_header(header_data) {
        Err(e) => Err(AudioExtractError::Header(e)),
        Ok(m) => match spec_compression_format(m.format_tag) {
            Err(e) => Err(AudioExtractError::Format(e)),
            Ok(format) => match spec_audio_payload(format, f_data, b_data, m.size) {
                Err(e) => Err(AudioExtractError::Payload(e)),
                Ok(payload) => Ok((format, payload, file_stem(name) + audio_extension(format))),
            },
        },
    }
}

/// Extracts the audio of the node `name` from the header data of its `H`
/// part and the decompressed data of its `F` and `B` parts (each `None`
/// when the part has no node for the file).
pub fn extract_audio(
    header_data: &[u8],
    name: &str,
    f_data: Option<&[u8]>,
    b_data: Option<&[u8]>,
) -> (res: Result<ExtractedAudio, AudioExtractError>)
    ensures
        match spec_extract_audio(header_data@, name@, f_data, b_data) {
            Ok((format, payload, file_name)) => res matches Ok(a) && a.format == format
                && a.payload@ == payload && a.file_name@ == file_name,
            Err(e) => res matches Err(r) && r == e,
        },
{
    let header = match RawAudioHeader::parse(header_data) {
        Ok(h) => h,
        Err(e) => return Err(AudioExtractError::Header(e)),
    };
    let format = match CompressionFormat::try_from(header.format_tag) {
        Ok(f) => f,
        Err(e) => return Err(AudioExtractError::Format(e)),
    };
    let payload = match assemble_audio_payload(format, f_data, b_data, header.size) {
        Ok(p) => p,
        Err(e) => return Err(AudioExtractError::Payload(e)),
    };
    let file_name = audio_file_name(name, format);
    Ok(ExtractedAudio { format, payload, file_name })
}

/// The little-endian bytes of 16-bit PCM samples.
pub open spec fn spec_pcm_bytes(samples: Seq<i16>) -> Seq<u8> {
    Seq::new(
        samples.len() * 2,
        |i: int|
            if i % 2 == 0 {
                (samples[i / 2] as u16 % 256) as u8
            } else {
                (samples[i / 2] as u16 / 256) as u8
            },
    )
}

/// Encodes 16-bit PCM samples as little-endian bytes.
pub fn pcm_samples_to_le_bytes(samples: &[i16]) -> (res: Vec<u8>)
    requires
        samples@.len() * 2 <= usize::MAX,
    ensures
        res@ == spec_pcm_bytes(samples@),
{
    let mut bytes: Vec<u8> = Vec::new();
    let mut i: usize = 0;
    while i < samples.len()
        invariant
            i <= samples@.len(),
            samples@.len() * 2 <= usize::MAX,
            bytes@ == spec_pcm_bytes(samples@.subrange(0, i as int)),
        decreases samples@.len() - i,
    {
        let v = samples[i] as u16;
        let lo = (v & 0xff) as u8;
        let hi = (v >> 8) as u8;
        assert(v & 0xff == v % 256 && v >> 8 == v / 256) by (bit_vector);
        let ghost before = bytes@;
        bytes.push(lo);
        bytes.push(hi);
        assert(bytes@ =~= spec_pcm_bytes(samples@.subrange(0, i + 1))) by {
            assert forall|j: int| 0 <= j < bytes@.len() implies bytes@[j] == spec_pcm_bytes(
                samples@.subrange(0, i + 1),
            )[j] by {
                if j < 2 * i {
                    assert(samples@.subrange(0, i + 1)[j / 2] == samples@.subrange(0, i as int)[j / 2]);
                }
            }
        }
        i += 1;
    }
    assert(samples@.subrange(0, i as int) =~= samples@);
    bytes
}

/// The placement of one Ogg page of an Opus stream: the payload bytes
/// `start..end` that it carries, its header type, granule position and
/// sequence number.
#[derive(Debug, Clone, Copy, PartialEq, Eq, Structural)]
pub struct OggPageLayout {
    pub start: usize,
    pub end: usize,
    pub header_type: u8,
    pub granule_position: u64,
    pub page_sequence_number: u32,
}

/// The page at index `k` of an Opus stream of `len` bytes cut into chunks
/// of `chunk` bytes: pages after the two header pages are numbered from 2,
/// each advances the granule position by one second of samples, and a
/// short (last) chunk is marked as the end of the stream (`0x04`).
pub open spec fn spec_opus_page(len: int, chunk: int, samples_per_second: int, k: int) -> OggPageLayout {
    let start = k * chunk;
    let end = if len - start < chunk {
        len
    } else {
        start + chunk
    };
    OggPageLayout {
        start: start as usize,
        end: end as usize,
        header_type: if end - start < chunk {
            4
        } else {
            0
        },
        granule_position: (samples_per_second * (k + 1)) as u64,
        page_sequence_number: (k + 2) as u32,
    }
}

/// Cuts an Opus stream of `payload_len` bytes into the data pages of its
/// Ogg file: chunks of fifty blocks of `block_align` bytes. The stream's
/// length is the `size` field of its audio header, a `u32`, so it is at
/// most `u32::MAX`; a `block_align` of 0 is ruled out, as cutting a stream
/// into chunks of no bytes panics.
pub fn opus_page_layout(payload_len: usize, block_align: u16, samples_per_second: u32) -> (res: Vec<
    OggPageLayout,
>)
    requires
        block_align > 0,
        payload_len <= u32::MAX,
    ensures
        res@.len() * (block_align * 50) >= payload_len,
        res@.len() == 0 || (res@.len() - 1) * (block_align * 50) < payload_len,
        forall|k: int|
            0 <= k < res@.len() ==> #[trigger] res@[k] == spec_opus_page(
                payload_len as int,
                block_align * 50,
                samples_per_second as int,
                k,
            ),
{
    let chunk_size: usize = block_align as usize * 50;
    let ghost chunk = chunk_size as int;
    let mut pages: Vec<OggPageLayout> = Vec::new();
    let mut start: usize = 0;
    let mut granule_position: u64 = samples_per_second as u64;
    let mut page_sequence_number: u32 = 2;
    assert(pages@.len() * chunk == 0) by (nonlinear_arith)
        requires
            pages@.len() == 0,
    ;
    assert(samples_per_second * (pages@.len() + 1) == samples_per_second) by (nonlinear_arith)
        requires
            pages@.len() == 0,
    ;
    while start < payload_len
        invariant
            chunk == block_align * 50,
            chunk_size == chunk,
            chunk >= 50,
            payload_len <= u32::MAX,
            start == if pages@.len() * chunk <= payload_len {
                pages@.len() * chunk
            } else {
                payload_len as int
            },
            pages@.len() == 0 || (pages@.len() - 1) * chunk < payload_len,
            start <= payload_len,
            granule_position == samples_per_second * (pages@.len() + 1),
            page_sequence_number == pages@.len() + 2,
            forall|k: int|
                0 <= k < pages@.len() ==> #[trigger] pages@[k] == spec_opus_page(
                    payload_len as int,
                    chunk,
                    samples_per_second as int,
                    k,
                ),
        decreases payload_len - start,
    {
        let ghost k = pages@.len() as int;
        assert(k * 50 <= k * chunk) by (nonlinear_arith)
            requires
                chunk >= 50,
                k >= 0,
        ;
        assert(k < 0x0800_0000);
        assert(samples_per_second * (k + 2) <= 0xFFFF_FFFF * 0x0800_0001) by (nonlinear_arith)
            requires
                samples_per_second <= 0xFFFF_FFFF,
                0 <= k < 0x0800_0000,
        ;
        let end = if payload_len - start < chunk_size {
            payload_len
        } else {
            start + chunk_size
        };
        let header_type: u8 = if end - start < chunk_size {
            0x04
        } else {
            0x00
        };
        let page = OggPageLayout {
            start,
            end,
            header_type,
            granule_position,
            page_sequence_number,
        };
        assert(page == spec_opus_page(payload_len as int, chunk, samples_per_second as int, k));
        assert(samples_per_second * (k + 1) + samples_per_second == samples_per_second * (k + 2))
            by (nonlinear_arith);
        assert((k + 1) * chunk == k * chunk + chunk) by (nonlinear_arith);
        pages.push(page);
        start = end;
        granule_position = granule_position + samples_per_second as u64;
        page_sequence_number = page_sequence_number + 1;
        if end == payload_len {
            assert(start <= (k + 1) * chunk);
        }
    }
    pages
}

/// Whether `pat` occurs in `s`.
pub open spec fn spec_contains(s: Seq<char>, pat: Seq<char>) -> bool {
    exists|i: int| 0 <= i && i + pat.len() <= s.len() && #[trigger] s.subrange(i, i + pat.len()) == pat
}

/// Whether `path` carries the `.deleted` marker.
pub fn has_deleted_marker(path: &str) -> (res: bool)
    ensures
        res == spec_contains(path@, deleted_marker()),
{
    let marker = ".deleted";
    let n = path.unicode_len();
    let k = marker.unicode_len();
    proof {
        lemma_marker_chars();
    }
    if k > n {
        return false;
    }
    let mut i: usize = 0;
    while i <= n - k
        invariant
            n == path@.len(),
            k == marker@.len(),
            marker@ == deleted_marker(),
            k == 8,
            k <= n,
            i <= n - k + 1,
            forall|j: int| 0 <= j < i ==> #[trigger] path@.subrange(j, j + k) != marker@,
        decreases n - k + 1 - i,
    {
        if str_equal(path.substring_char(i, i + k), marker) {
            assert(path@.subrange(i as int, i + k) == marker@);
            return true;
        }
        i += 1;
    }
    false
}

/// Where the audio of `path` is looked up in the `F` and `B` parts once it
/// was found in neither: at the path without the `.deleted` marker when the
/// path carries one (a resurrected entry), nowhere (`None`) otherwise or
/// when it was found in either part.
pub fn deleted_fallback_path(path: &str, found_in_f: bool, found_in_b: bool) -> (res: Option<String>)
    ensures
        match res {
            Some(p) => !found_in_f && !found_in_b && spec_contains(path@, deleted_marker()) && p@
                == remove_all(path@, deleted_marker()),
            None => found_in_f || found_in_b || !spec_contains(path@, deleted_marker()),
        },
{
    if !found_in_f && !found_in_b && has_deleted_marker(path) {
        Some(remove_deleted_marker(path))
    } else {
        None
    }
}

/// The marker that names of resurrected entries carry.
pub open spec fn deleted_marker() -> Seq<char> {
    ".deleted"@
}

proof fn lemma_marker_chars()
    ensures
        deleted_marker() == seq!['.', 'd', 'e', 'l', 'e', 't', 'e', 'd'],
{
    reveal_strlit(".deleted");
    assert(deleted_marker() =~= seq!['.', 'd', 'e', 'l', 'e', 't', 'e', 'd']);
}

/// Removing the marker from `a + r` removes it from `a` and from `r`
/// separately when the first character of `r` can only start a marker.
proof fn lemma_remove_split(a: Seq<char>, r: Seq<char>)
    requires
        r.len() > 0,
        forall|k: int| 1 <= k < 8 ==> deleted_marker()[k] != r[0],
    ensures
        remove_all(a + r, deleted_marker()) == remove_all(a, deleted_marker()) + remove_all(
            r,
            deleted_marker(),
        ),
    decreases a.len(),
{
    let m = deleted_marker();
    lemma_marker_chars();
    let s = a + r;
    if a.len() == 0 {
        assert(s =~= r);
        assert(remove_all(a, m) + remove_all(r, m) =~= remove_all(r, m));
    } else {
        let is_match = s.len() >= 8 && s.subrange(0, 8) == m;
        if a.len() >= 8 {
            assert(s.subrange(0, 8) =~= a.subrange(0, 8));
            if is_match {
                let a2 = a.subrange(8, a.len() as int);
                assert(s.subrange(8, s.len() as int) =~= a2 + r);
                lemma_remove_split(a2, r);
                assert(remove_all(a2, m) + remove_all(r, m) == remove_all(a, m) + remove_all(r, m));
            } else {
                let a2 = a.subrange(1, a.len() as int);
                assert(s.subrange(1, s.len() as int) =~= a2 + r);
                lemma_remove_split(a2, r);
                assert(seq![s[0]] + (remove_all(a2, m) + remove_all(r, m)) =~= (seq![a[0]]
                    + remove_all(a2, m)) + remove_all(r, m));
            }
        } else {
            if s.len() >= 8 {
                let k = a.len() as int;
                assert(s.subrange(0, 8)[k] == r[0]);
                assert(s.subrange(0, 8)[k] != m[k]);
            }
            let a2 = a.subrange(1, a.len() as int);
            assert(s.subrange(1, s.len() as int) =~= a2 + r);
            lemma_remove_split(a2, r);
            assert(seq![s[0]] + (remove_all(a2, m) + remove_all(r, m)) =~= (seq![a[0]]
                + remove_all(a2, m)) + remove_all(r, m));
        }
    }
}

proof fn lemma_remove_leading_marker(b: Seq<char>)
    ensures
        remove_all(deleted_marker() + b, deleted_marker()) == remove_all(b, deleted_marker()),
{
    lemma_marker_chars();
    let s = deleted_marker() + b;
    assert(s.subrange(0, 8) =~= deleted_marker());
    assert(s.subrange(8, s.len() as int) =~= b);
}

proof fn lemma_last_index(s: Seq<char>, c: char, k: int)
    requires
        k <= s.len(),
    ensures
        last_index_before(s, c, k) matches Some(i) ==> 0 <= i < k && s[i] == c,
    decreases k,
{
    if k > 0 {
        lemma_last_index(s, c, k - 1);
    }
}

proof fn lemma_last_dot_normalized(s: Seq<char>, k: int)
    requires
        k <= s.len(),
    ensures
        last_index_before(normalize_separators(s), '.', k) == last_index_before(s, '.', k),
    decreases k,
{
    if k > 0 {
        lemma_last_dot_normalized(s, k - 1);
    }
}

/// Law: removing the `.deleted` marker from the name that a resurrected
/// entry is given yields what removing it from the entry's own name
/// yields (the name itself, when it holds no marker).
pub proof fn law_deleted_marker_removal(name: Seq<char>)
    ensures
        remove_all(with_deleted_marker(name), deleted_marker()) == remove_all(
            name,
            deleted_marker(),
        ),
{
    let m = deleted_marker();
    lemma_marker_chars();
    lemma_last_index(name, '.', name.len() as int);
    match last_index_before(name, '.', name.len() as int) {
        Some(pos) => {
            let a = name.subrange(0, pos);
            let b = name.subrange(pos, name.len() as int);
            assert(b[0] == '.');
            assert(with_deleted_marker(name) =~= a + (m + b));
            lemma_remove_split(a, m + b);
            lemma_remove_leading_marker(b);
            assert(name =~= a + b);
            lemma_remove_split(a, b);
        },
        None => {
            lemma_remove_split(name, m);
            lemma_remove_leading_marker(Seq::empty());
            assert(m + Seq::<char>::empty() =~= m);
            assert(remove_all(Seq::<char>::empty(), m) =~= Seq::<char>::empty());
            assert(remove_all(name, m) + Seq::<char>::empty() =~= remove_all(name, m));
        },
    }
}

proof fn lemma_normalize_marked(name: Seq<char>)
    ensures
        normalize_separators(with_deleted_marker(name)) == with_deleted_marker(
            normalize_separators(name),
        ),
{
    let m = deleted_marker();
    let n = normalize_separators(name);
    lemma_marker_chars();
    lemma_last_dot_normalized(name, name.len() as int);
    lemma_last_index(name, '.', name.len() as int);
    assert(normalize_separators(m) =~= m);
    match last_index_before(name, '.', name.len() as int) {
        Some(pos) => {
            let a = name.subrange(0, pos);
            let b = name.subrange(pos, name.len() as int);
            assert(normalize_separators(a) =~= n.subrange(0, pos));
            assert(normalize_separators(b) =~= n.subrange(pos, n.len() as int));
            assert(normalize_separators(a + m + b) =~= normalize_separators(a) + normalize_separators(
                m,
            ) + normalize_separators(b));
        },
        None => {
            assert(normalize_separators(name + m) =~= n + normalize_separators(m));
        },
    }
}

proof fn lemma_remove_after_slash(x: Seq<char>)
    ensures
        remove_all(seq!['/'] + x, deleted_marker()) == seq!['/'] + remove_all(x, deleted_marker()),
{
    let m = deleted_marker();
    lemma_marker_chars();
    let s = seq!['/'] + x;
    assert(s.subrange(1, s.len() as int) =~= x);
    if s.len() >= 8 {
        assert(s.subrange(0, 8)[0] != m[0]);
    }
}

/// Law: the path under which a resurrected entry is registered, with the
/// `.deleted` marker removed, is the path that the entry's own name gives
/// with the marker removed; this is the path under which the audio of a
/// resurrected entry is looked up in the `F` and `B` parts.
pub proof fn law_deleted_path_lookup(parent: Seq<char>, name: Seq<char>)
    ensures
        remove_all(join_path(parent, normalize_separators(with_deleted_marker(name))), deleted_marker())
            == remove_all(join_path(parent, normalize_separators(name)), deleted_marker()),
{
    let m = deleted_marker();
    let n = normalize_separators(name);
    lemma_normalize_marked(name);
    law_deleted_marker_removal(n);
    let x = with_deleted_marker(n);
    lemma_marker_chars();
    let slash: Seq<char> = seq!['/'];
    assert(parent + slash + x =~= parent + (slash + x));
    assert(parent + slash + n =~= parent + (slash + n));
    lemma_remove_split(parent, slash + x);
    lemma_remove_split(parent, slash + n);
    lemma_remove_after_slash(x);
    lemma_remove_after_slash(n);
}

/// Law: the data pages of an Opus stream follow one another without gap
/// or overlap from the first byte of the stream to its last, and only the
/// last page can be marked as the end of the stream.
pub proof fn law_opus_pages_cover_stream(len: int, chunk: int, samples_per_second: int, count: int)
    requires
        chunk > 0,
        0 <= len <= u32::MAX,
        count * chunk >= len,
        count == 0 || (count - 1) * chunk < len,
    ensures
        count > 0 ==> spec_opus_page(len, chunk, samples_per_second, 0).start == 0,
        count > 0 ==> spec_opus_page(len, chunk, samples_per_second, count - 1).end == len,
        forall|k: int|
            0 <= k < count - 1 ==> (#[trigger] spec_opus_page(len, chunk, samples_per_second, k)).end
                == spec_opus_page(len, chunk, samples_per_second, k + 1).start
                && spec_opus_page(len, chunk, samples_per_second, k).header_type == 0,
{
    if count > 0 {
        assert(0 * chunk == 0);
        let last = count - 1;
        assert(last * chunk < len);
        assert(len - last * chunk <= chunk) by (nonlinear_arith)
            requires
                count * chunk >= len,
                last == count - 1,
        ;
    }
    assert forall|k: int| 0 <= k < count - 1 implies (#[trigger] spec_opus_page(
        len,
        chunk,
        samples_per_second,
        k,
    )).end == spec_opus_page(len, chunk, samples_per_second, k + 1).start && spec_opus_page(
        len,
        chunk,
        samples_per_second,
        k,
    ).header_type == 0 by {
        assert((k + 1) * chunk == k * chunk + chunk) by (nonlinear_arith);
        assert((k + 1) * chunk <= (count - 1) * chunk) by (nonlinear_arith)
            requires
                k + 1 <= count - 1,
                chunk > 0,
        ;
        assert(0 <= k * chunk) by (nonlinear_arith)
            requires
                k >= 0,
                chunk > 0,
        ;
    }
}

} // verus!
