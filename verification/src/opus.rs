//! The logic of decoding an Opus audio stream to 16-bit PCM: creating the
//! `opus-decoder` decoder, cutting the stream into packets and keeping what
//! the decoder answers for each packet.
//!
//! The decoding of a packet itself is left to the caller: the decoder's
//! source can panic on some malformed packets, which cannot be told apart
//! beforehand, and the functions of this library do not panic.

use vstd::prelude::*;

verus! {

#[verifier::external_type_specification]
#[verifier::external_body]
pub struct ExOpusDecoder(opus_decoder::OpusDecoder);

#[verifier::external_type_specification]
#[verifier::external_body]
pub struct ExOpusError(opus_decoder::OpusError);

/// Why an Opus stream could not be decoded.
#[derive(Debug, Clone, Copy, PartialEq, Eq, Structural)]
pub enum OpusPcmError {
    /// The decoder rejected the sample rate or the channel count.
    DecoderCreation,
    /// The decoder reported more samples for a packet than the scratch
    /// buffer of [`PCM_SCRATCH_SAMPLES`] samples holds.
    DecodedFrameTooLarge,
}

/// The number of samples of the buffer that each packet is decoded into.
pub const PCM_SCRATCH_SAMPLES: usize = 20000;

/// Whether an Opus decoder can be made for this output sample rate and
/// channel count: 8, 12, 16, 24 or 48 kHz, and one or two channels.
pub open spec fn opus_decoder_accepts(sample_rate: u32, channels: int) -> bool {
    (sample_rate == 8000 || sample_rate == 12000 || sample_rate == 16000 || sample_rate == 24000
        || sample_rate == 48000) && (channels == 1 || channels == 2)
}

/// Creates a decoder with `opus_decoder::OpusDecoder::new`. Its source
/// returns an error exactly when the sample rate is not 8, 12, 16, 24 or
/// 48 kHz or the channel count is not 1 or 2, and builds the decoder
/// otherwise; the decoder's state is not stated.
#[verifier::external_body]
fn new_opus_decoder(sample_rate: u32, channels: usize) -> (res: Result<
    opus_decoder::OpusDecoder,
    opus_decoder::OpusError,
>)
    ensures
        res is Ok <==> opus_decoder_accepts(sample_rate, channels as int),
{
    opus_decoder::OpusDecoder::new(sample_rate, channels)
}

/// Creates the decoder for a stream of `channels` channels decoded at
/// `sample_rate` samples per second, or fails with `DecoderCreation`
/// exactly when no decoder exists for them.
pub fn open_opus_decoder(sample_rate: u32, channels: u8) -> (res: Result<
    opus_decoder::OpusDecoder,
    OpusPcmError,
>)
    ensures
        res is Ok <==> opus_decoder_accepts(sample_rate, channels as int),
        res is Err ==> res == Err::<opus_decoder::OpusDecoder, OpusPcmError>(
            OpusPcmError::DecoderCreation,
        ),
{
    match new_opus_decoder(sample_rate, channels as usize) {
        Ok(d) => Ok(d),
        Err(_) => Err(OpusPcmError::DecoderCreation),
    }
}

/// The packets of a stream cut into packets of `block_align` bytes, from
/// byte `start` on; the last one may be shorter.
pub open spec fn opus_packets_from(payload: Seq<u8>, block_align: int, start: int) -> Seq<Seq<u8>>
    decreases payload.len() - start,
    when block_align > 0
{
    if start < 0 || start >= payload.len() {
        Seq::empty()
    } else {
        let end = if start + block_align < payload.len() {
            start + block_align
        } else {
            payload.len() as int
        };
        seq![payload.subrange(start, end)] + opus_packets_from(payload, block_align, end)
    }
}

/// The packets of a stream cut into packets of `block_align` bytes.
pub open spec fn opus_packets(payload: Seq<u8>, block_align: int) -> Seq<Seq<u8>> {
    opus_packets_from(payload, block_align, 0)
}

proof fn lemma_packets_from(payload: Seq<u8>, block_align: int, start: int)
    requires
        block_align > 0,
        0 <= start <= payload.len(),
    ensures
        opus_packets_from(payload, block_align, start).flatten() == payload.subrange(
            start,
            payload.len() as int,
        ),
        forall|k: int|
            0 <= k < opus_packets_from(payload, block_align, start).len() ==> 0 < (
            #[trigger] opus_packets_from(payload, block_align, start)[k]).len() <= block_align,
        forall|k: int|
            0 <= k < opus_packets_from(payload, block_align, start).len() - 1 ==> (
            #[trigger] opus_packets_from(payload, block_align, start)[k]).len() == block_align,
    decreases payload.len() - start,
{
    let ps = opus_packets_from(payload, block_align, start);
    if start >= payload.len() {
        assert(payload.subrange(start, payload.len() as int) =~= Seq::<u8>::empty());
    } else {
        let end = if start + block_align < payload.len() {
            start + block_align
        } else {
            payload.len() as int
        };
        lemma_packets_from(payload, block_align, end);
        let rest = opus_packets_from(payload, block_align, end);
        assert(ps.drop_first() =~= rest);
        assert(ps.first() == payload.subrange(start, end));
        assert(payload.subrange(start, end) + payload.subrange(end, payload.len() as int)
            =~= payload.subrange(start, payload.len() as int));
        assert forall|k: int| 0 <= k < ps.len() implies 0 < (#[trigger] ps[k]).len() <= block_align by {
            if k > 0 {
                assert(ps[k] == rest[k - 1]);
            }
        }
        assert forall|k: int| 0 <= k < ps.len() - 1 implies (#[trigger] ps[k]).len() == block_align by {
            if k > 0 {
                assert(ps[k] == rest[k - 1]);
            } else {
                assert(rest.len() > 0);
                assert(end < payload.len());
            }
        }
    }
}

/// Law: the packets of a stream, joined in order, give back the stream;
/// every packet holds between one and `block_align` bytes, and every packet
/// but the last holds exactly `block_align` bytes.
pub proof fn law_opus_packets_cover(payload: Seq<u8>, block_align: int)
    requires
        block_align > 0,
    ensures
        opus_packets(payload, block_align).flatten() == payload,
        forall|k: int|
            0 <= k < opus_packets(payload, block_align).len() ==> 0 < (#[trigger] opus_packets(
                payload,
                block_align,
            )[k]).len() <= block_align,
        forall|k: int|
            0 <= k < opus_packets(payload, block_align).len() - 1 ==> (#[trigger] opus_packets(
                payload,
                block_align,
            )[k]).len() == block_align,
{
    lemma_packets_from(payload, block_align, 0);
    assert(payload.subrange(0, payload.len() as int) =~= payload);
}

/// Cuts an Opus stream into packets of `block_align` bytes, in order; the
/// last packet holds what is left and may be shorter.
pub fn split_packets(payload: &[u8], block_align: u16) -> (res: Vec<&[u8]>)
    requires
        block_align > 0,
    ensures
        res@.map_values(|p: &[u8]| p@) == opus_packets(payload@, block_align as int),
{
    let packet_size = block_align as usize;
    let mut res: Vec<&[u8]> = Vec::new();
    let mut start: usize = 0;
    while start < payload.len()
        invariant
            packet_size == block_align,
            packet_size > 0,
            start <= payload@.len(),
            res@.map_values(|p: &[u8]| p@) + opus_packets_from(payload@, packet_size as int, start as int)
                == opus_packets(payload@, block_align as int),
        decreases payload@.len() - start,
    {
        let end = if payload.len() - start < packet_size {
            payload.len()
        } else {
            start + packet_size
        };
        let ghost before = res@.map_values(|p: &[u8]| p@);
        let packet = vstd::slice::slice_subrange(payload, start, end);
        res.push(packet);
        assert(res@.map_values(|p: &[u8]| p@) =~= before.push(payload@.subrange(start as int, end as int)));
        assert(opus_packets_from(payload@, packet_size as int, start as int) =~= seq![
            payload@.subrange(start as int, end as int),
        ] + opus_packets_from(payload@, packet_size as int, end as int));
        assert(before.push(payload@.subrange(start as int, end as int)) + opus_packets_from(
            payload@,
            packet_size as int,
            end as int,
        ) =~= before + (seq![payload@.subrange(start as int, end as int)] + opus_packets_from(
            payload@,
            packet_size as int,
            end as int,
        )));
        start = end;
    }
    assert(opus_packets_from(payload@, packet_size as int, start as int) =~= Seq::<Seq<u8>>::empty());
    assert(res@.map_values(|p: &[u8]| p@) + Seq::<Seq<u8>>::empty() =~= res@.map_values(
        |p: &[u8]| p@,
    ));
    res
}

/// What is kept of the decoder's answer to one packet: nothing when the
/// decoder rejected the packet (`None`); otherwise the first `n` samples of
/// every channel, interleaved, from the buffer that the packet was decoded
/// into, appended to `out`, or `DecodedFrameTooLarge` when the buffer does
/// not hold that many.
pub open spec fn append_decoded_spec(
    out: Seq<i16>,
    buffer: Seq<i16>,
    decoded: Option<usize>,
    channels: int,
) -> Result<Seq<i16>, OpusPcmError> {
    match decoded {
        None => Ok(out),
        Some(n) => if n * channels <= buffer.len() {
            Ok(out + buffer.subrange(0, n * channels))
        } else {
            Err(OpusPcmError::DecodedFrameTooLarge)
        },
    }
}

/// Adds to `pcm_out` what is kept of the decoder's answer `decoded` to one
/// packet, whose samples were decoded into `pcm_buffer`.
pub fn append_decoded(
    pcm_out: &mut Vec<i16>,
    pcm_buffer: &[i16],
    decoded: Option<usize>,
    channels: u8,
) -> (res: Result<(), OpusPcmError>)
    ensures
        match append_decoded_spec(old(pcm_out)@, pcm_buffer@, decoded, channels as int) {
            Ok(v) => res is Ok && final(pcm_out)@ == v,
            Err(e) => res == Err::<(), OpusPcmError>(e) && final(pcm_out)@ == old(pcm_out)@,
        },
{
    match decoded {
        None => Ok(()),
        Some(num_samples) => {
            let buffer_len = pcm_buffer.len();
            let total_samples = match num_samples.checked_mul(channels as usize) {
                Some(t) => {
                    if t > buffer_len {
                        return Err(OpusPcmError::DecodedFrameTooLarge);
                    }
                    t
                },
                None => {
                    assert(num_samples * channels > usize::MAX);
                    return Err(OpusPcmError::DecodedFrameTooLarge);
                },
            };
            let ghost before = pcm_out@;
            let mut i: usize = 0;
            while i < total_samples
                invariant
                    i <= total_samples,
                    total_samples <= pcm_buffer@.len(),
                    pcm_out@ == before + pcm_buffer@.subrange(0, i as int),
                decreases total_samples - i,
            {
                pcm_out.push(pcm_buffer[i]);
                i += 1;
                assert(pcm_out@ =~= before + pcm_buffer@.subrange(0, i as int));
            }
            Ok(())
        },
    }
}

/// The samples kept of a stream from the decoder's answers, packet by
/// packet: each step holds the decoder's answer to one packet (`None` when
/// it rejected the packet) and the buffer that the packet was decoded into.
pub open spec fn decode_steps(steps: Seq<(Option<usize>, Seq<i16>)>, channels: int) -> Result<
    Seq<i16>,
    OpusPcmError,
>
    decreases steps.len(),
{
    if steps.len() == 0 {
        Ok(Seq::empty())
    } else {
        match decode_steps(steps.drop_last(), channels) {
            Ok(out) => append_decoded_spec(out, steps.last().1, steps.last().0, channels),
            Err(e) => Err(e),
        }
    }
}

/// Law: the samples kept of a stream, whatever the decoder answered, hold
/// the same number of samples for every channel.
pub proof fn law_decoded_samples_interleaved(steps: Seq<(Option<usize>, Seq<i16>)>, channels: int)
    requires
        channels > 0,
    ensures
        decode_steps(steps, channels) matches Ok(v) ==> (v.len() as int) % channels == 0,
    decreases steps.len(),
{
    if steps.len() > 0 {
        law_decoded_samples_interleaved(steps.drop_last(), channels);
        if let Ok(out) = decode_steps(steps.drop_last(), channels) {
            if let Some(n) = steps.last().0 {
                let total = n * channels;
                if total <= steps.last().1.len() {
                    vstd::arithmetic::div_mod::lemma_mod_multiples_basic(n as int, channels);
                    vstd::arithmetic::div_mod::lemma_add_mod_noop(out.len() as int, total, channels);
                    assert(0int % channels == 0);
                    assert(out.len() + total == (out + steps.last().1.subrange(0, total)).len());
                }
            }
        }
    }
}

} // verus!
