//! Audio compression formats and audio header kinds found in cache headers.

use vstd::prelude::*;

verus! {

/// The compression formats used for audio data in caches.
#[derive(Debug, Clone, Copy, PartialEq, Eq, Structural)]
pub enum CompressionFormat {
    /// Uncompressed PCM audio format.
    PCM,
    /// Compressed MS ADPCM audio format.
    ADPCM,
    /// Compressed Opus audio format.
    Opus,
    /// Compressed Microsoft xWMA/WMAv2 audio format.
    XWMA,
}

/// The kinds of audio header that caches hold.
#[derive(Debug, Clone, Copy, PartialEq, Eq, Structural)]
pub enum AudioKind {
    /// Early audio headers, file type `0x87`.
    Audio135,
    /// Later audio headers, file type `0x8B`.
    Audio139,
}

/// A numeric code that names no known format or kind.
#[derive(Debug, Clone, Copy, PartialEq, Eq, Structural)]
pub enum AudioFormatError {
    /// The format tag names no known compression format.
    UnknownCompressionFormat,
    /// The file type names no known audio kind.
    UnknownAudioKind,
}

/// The compression format that a format tag names.
pub open spec fn spec_compression_format(value: u32) -> Result<CompressionFormat, AudioFormatError> {
    if value == 0x00 || value == 0x01 {
        Ok(CompressionFormat::PCM)
    } else if value == 0x05 {
        Ok(CompressionFormat::ADPCM)
    } else if value == 0x07 {
        Ok(CompressionFormat::Opus)
    } else {
        Err(AudioFormatError::UnknownCompressionFormat)
    }
}

/// The audio kind that a file type names.
pub open spec fn spec_audio_kind(value: u32) -> Result<AudioKind, AudioFormatError> {
    if value == 0x87 {
        Ok(AudioKind::Audio135)
    } else if value == 0x8B {
        Ok(AudioKind::Audio139)
    } else {
        Err(AudioFormatError::UnknownAudioKind)
    }
}

impl AudioKind {
    /// The file type code of this kind.
    pub fn file_type(&self) -> (v: u32)
        ensures
            spec_audio_kind(v) == Ok::<AudioKind, AudioFormatError>(*self),
    {
        match self {
            AudioKind::Audio135 => 0x87,
            AudioKind::Audio139 => 0x8B,
        }
    }
}

impl TryFrom<u32> for CompressionFormat {
    type Error = AudioFormatError;

    fn try_from(value: u32) -> (res: Result<Self, Self::Error>) {
        match value {
            0x00 | 0x01 => Ok(CompressionFormat::PCM),
            0x05 => Ok(CompressionFormat::ADPCM),
            0x07 => Ok(CompressionFormat::Opus),
            _ => Err(AudioFormatError::UnknownCompressionFormat),
        }
    }
}

impl vstd::std_specs::convert::TryFromSpecImpl<u32> for CompressionFormat {
    open spec fn obeys_try_from_spec() -> bool {
        true
    }

    open spec fn try_from_spec(value: u32) -> Result<Self, Self::Error> {
        spec_compression_format(value)
    }
}

impl TryFrom<u32> for AudioKind {
    type Error = AudioFormatError;

    fn try_from(value: u32) -> (res: Result<Self, Self::Error>) {
        match value {
            0x87 => Ok(AudioKind::Audio135),
            0x8B => Ok(AudioKind::Audio139),
            _ => Err(AudioFormatError::UnknownAudioKind),
        }
    }
}

impl vstd::std_specs::convert::TryFromSpecImpl<u32> for AudioKind {
    open spec fn obeys_try_from_spec() -> bool {
        true
    }

    open spec fn try_from_spec(value: u32) -> Result<Self, Self::Error> {
        spec_audio_kind(value)
    }
}

} // verus!
