//! Decompression of the block format used by caches written before the
//! "Great Ensmallening" update.
//!
//! A compressed payload is a run of blocks. Each block starts with a
//! four-byte header (big-endian compressed length, big-endian decompressed
//! length) followed by the block's bytes. A block whose two lengths agree is
//! stored verbatim; any other block holds a byte stream in a small LZ format
//! (see [`decompress_custom_lz`]).

use vstd::prelude::*;

verus! {

/// Why an LZ block could not be decoded.
#[derive(Debug, Clone, Copy, PartialEq, Eq, Structural)]
pub enum LzError {
    /// A literal run would write past the end of the output.
    LiteralOverflow,
    /// A literal run reaches past the end of the compressed bytes.
    LiteralOverrun,
    /// A long match has no byte left for its length extension.
    LengthOverrun,
    /// A match has no byte left for the low half of its distance.
    DistanceOverrun,
    /// A match would write past the end of the output.
    DictOverflow,
    /// A match refers to bytes before the start of the output.
    NegativeLookbehind,
}

/// The description that [`LzError::message`] gives of each error.
pub open spec fn lz_error_message(e: LzError) -> Seq<char> {
    match e {
        LzError::LiteralOverflow => "Decompression buffer overflow in literal copy"@,
        LzError::LiteralOverrun => "Compression buffer read overrun in literal copy"@,
        LzError::LengthOverrun => "Compression buffer read overrun in copy_length extension"@,
        LzError::DistanceOverrun => "Compression buffer read overrun in dictDist"@,
        LzError::DictOverflow => "Decompression buffer overflow in dict copy"@,
        LzError::NegativeLookbehind => "Negative lookbehind offset"@,
    }
}

impl LzError {
    /// A human-readable description of the error.
    pub fn message(&self) -> (res: &'static str)
        ensures
            res@ == lz_error_message(*self),
    {
        match self {
            LzError::LiteralOverflow => "Decompression buffer overflow in literal copy",
            LzError::LiteralOverrun => "Compression buffer read overrun in literal copy",
            LzError::LengthOverrun => "Compression buffer read overrun in copy_length extension",
            LzError::DistanceOverrun => "Compression buffer read overrun in dictDist",
            LzError::DictOverflow => "Decompression buffer overflow in dict copy",
            LzError::NegativeLookbehind => "Negative lookbehind offset",
        }
    }
}

/// Why a pre-ensmallening payload could not be decompressed.
#[derive(Debug, Clone, Copy, PartialEq, Eq, Structural)]
pub enum PreEnsmalleningError {
    /// Fewer than four bytes remain where a block header should start.
    BlockHeaderIncomplete,
    /// A block's compressed length reaches past the end of the payload.
    BlockDataIncomplete,
    /// An LZ-compressed block failed to decode.
    CustomLz(LzError),
}

/// Appends `n` bytes to `out`, the byte appended at step `i` being a copy of
/// the byte at index `start + i` of the output as it stands at that step
/// (so a copy may read bytes that it has itself just written).
pub open spec fn lookbehind_copy(out: Seq<u8>, start: int, n: nat) -> Seq<u8>
    decreases n,
{
    if n == 0 {
        out
    } else {
        let s = lookbehind_copy(out, start, (n - 1) as nat);
        s.push(s[start + n - 1])
    }
}

/// Decodes the LZ stream `comp` from index `cpos` on, `out` being what was
/// produced so far and `cap` the size of the output buffer.
///
/// Each step reads a code word `c`:
/// - `c < 32`: the next `c + 1` bytes are copied to the output;
/// - otherwise the match length is `c >> 5` (extended by the next byte when
///   it is 7), the distance is `(c & 0x1F) << 8` or'ed with the next byte, and
///   `length + 2` bytes are copied from `distance + 1` bytes back.
pub open spec fn lz_decode_from(comp: Seq<u8>, cpos: int, out: Seq<u8>, cap: int) -> Result<
    Seq<u8>,
    LzError,
>
    decreases comp.len() - cpos,
{
    if cpos < 0 || cpos >= comp.len() {
        Ok(out)
    } else {
        let code = comp[cpos] as int;
        let cpos1 = cpos + 1;
        if code < 32 {
            let n = code + 1;
            if out.len() + n > cap {
                Err(LzError::LiteralOverflow)
            } else if cpos1 + n > comp.len() {
                Err(LzError::LiteralOverrun)
            } else {
                lz_decode_from(comp, cpos1 + n, out + comp.subrange(cpos1, cpos1 + n), cap)
            }
        } else if code / 32 == 7 && cpos1 >= comp.len() {
            Err(LzError::LengthOverrun)
        } else {
            let len0 = if code / 32 == 7 {
                7 + comp[cpos1] as int
            } else {
                code / 32
            };
            let cpos2 = if code / 32 == 7 {
                cpos1 + 1
            } else {
                cpos1
            };
            if cpos2 >= comp.len() {
                Err(LzError::DistanceOverrun)
            } else {
                let dist = (code % 32) * 256 + comp[cpos2] as int;
                let n = len0 + 2;
                if out.len() + n > cap {
                    Err(LzError::DictOverflow)
                } else if dist >= out.len() {
                    Err(LzError::NegativeLookbehind)
                } else {
                    lz_decode_from(
                        comp,
                        cpos2 + 1,
                        lookbehind_copy(out, out.len() - 1 - dist, n as nat),
                        cap,
                    )
                }
            }
        }
    }
}

/// `n` zero bytes.
pub open spec fn zeros(n: int) -> Seq<u8> {
    Seq::new(n as nat, |i: int| 0u8)
}

/// The result of decoding the whole LZ stream `comp` into a buffer of `cap`
/// bytes: the decoded bytes followed by zeros up to `cap`.
pub open spec fn lz_decode(comp: Seq<u8>, cap: int) -> Result<Seq<u8>, LzError> {
    match lz_decode_from(comp, 0, Seq::empty(), cap) {
        Ok(out) => Ok(out + zeros(cap - out.len())),
        Err(e) => Err(e),
    }
}

proof fn lemma_lookbehind_copy(out: Seq<u8>, start: int, n: nat)
    requires
        0 <= start < out.len(),
    ensures
        lookbehind_copy(out, start, n).len() == out.len() + n,
        lookbehind_copy(out, start, n).subrange(0, out.len() as int) == out,
    decreases n,
{
    if n > 0 {
        lemma_lookbehind_copy(out, start, (n - 1) as nat);
        let s = lookbehind_copy(out, start, (n - 1) as nat);
        assert(s.push(s[start + n - 1]).subrange(0, out.len() as int) =~= s.subrange(
            0,
            out.len() as int,
        ));
    }
}

proof fn lemma_lz_decode_from_len(comp: Seq<u8>, cpos: int, out: Seq<u8>, cap: int)
    requires
        out.len() <= cap,
    ensures
        lz_decode_from(comp, cpos, out, cap) matches Ok(r) ==> r.len() <= cap,
    decreases comp.len() - cpos,
{
    if 0 <= cpos < comp.len() {
        let code = comp[cpos] as int;
        let cpos1 = cpos + 1;
        if code < 32 {
            let n = code + 1;
            if out.len() + n <= cap && cpos1 + n <= comp.len() {
                lemma_lz_decode_from_len(comp, cpos1 + n, out + comp.subrange(cpos1, cpos1 + n), cap);
            }
        } else if !(code / 32 == 7 && cpos1 >= comp.len()) {
            let len0 = if code / 32 == 7 { 7 + comp[cpos1] as int } else { code / 32 };
            let cpos2 = if code / 32 == 7 { cpos1 + 1 } else { cpos1 };
            if cpos2 < comp.len() {
                let dist = (code % 32) * 256 + comp[cpos2] as int;
                let n = len0 + 2;
                if out.len() + n <= cap && dist < out.len() {
                    lemma_lookbehind_copy(out, out.len() - 1 - dist, n as nat);
                    lemma_lz_decode_from_len(
                        comp,
                        cpos2 + 1,
                        lookbehind_copy(out, out.len() - 1 - dist, n as nat),
                        cap,
                    );
                }
            }
        }
    }
}

/// Decodes one LZ-compressed block into a buffer of `decompressed_len`
/// bytes. Bytes that the stream does not write stay zero.
pub fn decompress_custom_lz(compressed: &[u8], decompressed_len: usize) -> (res: Result<
    Vec<u8>,
    LzError,
>)
    ensures
        res matches Ok(v) ==> v@.len() == decompressed_len,
        match res {
            Ok(v) => lz_decode(compressed@, decompressed_len as int) == Ok::<Seq<u8>, LzError>(v@),
            Err(e) => lz_decode(compressed@, decompressed_len as int) == Err::<Seq<u8>, LzError>(e),
        },
{
    let mut result: Vec<u8> = vec![0u8; decompressed_len];
    let mut comp_pos: usize = 0;
    let mut decomp_pos: usize = 0;
    let ghost comp = compressed@;
    let ghost cap = decompressed_len as int;
    assert(result@.subrange(0, 0) =~= Seq::<u8>::empty());

    while comp_pos < compressed.len()
        invariant
            comp == compressed@,
            cap == decompressed_len,
            result@.len() == cap,
            comp_pos <= compressed.len(),
            decomp_pos <= cap,
            forall|k: int| decomp_pos <= k < cap ==> result@[k] == 0u8,
            lz_decode_from(comp, 0, Seq::empty(), cap) == lz_decode_from(
                comp,
                comp_pos as int,
                result@.subrange(0, decomp_pos as int),
                cap,
            ),
        decreases compressed.len() - comp_pos,
    {
        let ghost out = result@.subrange(0, decomp_pos as int);
        let ghost cpos = comp_pos as int;
        let code_word = compressed[comp_pos];
        comp_pos += 1;
        let code_word_value = code_word as usize;

        if code_word_value < 32 {
            let copy_len = code_word_value + 1;
            if copy_len > result.len() - decomp_pos {
                return Err(LzError::LiteralOverflow);
            }
            if copy_len > compressed.len() - comp_pos {
                return Err(LzError::LiteralOverrun);
            }
            let mut i: usize = 0;
            while i < copy_len
                invariant
                    comp == compressed@,
                    result@.len() == cap,
                    i <= copy_len,
                    cap == decompressed_len,
                    decomp_pos + copy_len <= cap,
                    comp_pos + copy_len <= compressed.len(),
                    result@.subrange(0, decomp_pos as int) == out,
                    result@.subrange(decomp_pos as int, decomp_pos + i) == comp.subrange(
                        comp_pos as int,
                        comp_pos + i,
                    ),
                    forall|k: int| decomp_pos + copy_len <= k < cap ==> result@[k] == 0u8,
                decreases copy_len - i,
            {
                result.set(decomp_pos + i, compressed[comp_pos + i]);
                i += 1;
                assert(result@.subrange(decomp_pos as int, decomp_pos + i) =~= comp.subrange(
                    comp_pos as int,
                    comp_pos + i,
                ));
            }
            assert(result@.subrange(0, decomp_pos + copy_len) =~= out + comp.subrange(
                comp_pos as int,
                comp_pos + copy_len,
            )) by {
                assert(result@.subrange(0, decomp_pos as int) =~= out);
            }
            decomp_pos += copy_len;
            comp_pos += copy_len;
            continue;
        }

        let mut copy_length = code_word_value >> 5;
        assert(code_word_value >> 5 == code_word_value / 32) by (bit_vector);
        if copy_length == 7 {
            if comp_pos >= compressed.len() {
                return Err(LzError::LengthOverrun);
            }
            copy_length += compressed[comp_pos] as usize;
            comp_pos += 1;
        }

        if comp_pos >= compressed.len() {
            return Err(LzError::DistanceOverrun);
        }
        let temp = (code_word_value & 0x1F) << 8;
        assert((code_word_value & 0x1F) << 8 == (code_word_value % 32) * 256) by (bit_vector)
            requires
                code_word_value < 256,
        ;
        let low: u8 = compressed[comp_pos];
        assert(temp | (low as usize) == temp + low as usize) by (bit_vector)
            requires
                temp == (code_word_value % 32) * 256,
                code_word_value < 256,
        ;
        let dict_dist = temp | (low as usize);
        comp_pos += 1;

        copy_length += 2;
        if copy_length > result.len() - decomp_pos {
            return Err(LzError::DictOverflow);
        }

        if dict_dist >= decomp_pos {
            return Err(LzError::NegativeLookbehind);
        }

        let start = decomp_pos - 1 - dict_dist;
        let mut i: usize = 0;
        proof {
            lemma_lookbehind_copy(out, start as int, copy_length as nat);
        }
        while i < copy_length
            invariant
                result@.len() == cap,
                i <= copy_length,
                cap == decompressed_len,
                start < decomp_pos,
                decomp_pos + copy_length <= cap,
                out.len() == decomp_pos,
                result@.subrange(0, decomp_pos + i) == lookbehind_copy(out, start as int, i as nat),
                forall|k: int| decomp_pos + copy_length <= k < cap ==> result@[k] == 0u8,
            decreases copy_length - i,
        {
            proof {
                lemma_lookbehind_copy(out, start as int, i as nat);
            }
            let b = result[start + i];
            assert(b == lookbehind_copy(out, start as int, i as nat)[start + i]);
            result.set(decomp_pos + i, b);
            i += 1;
            assert(result@.subrange(0, decomp_pos + i) =~= lookbehind_copy(
                out,
                start as int,
                (i - 1) as nat,
            ).push(b));
        }
        decomp_pos += copy_length;
    }
    proof {
        let produced = result@.subrange(0, decomp_pos as int);
        assert(result@ =~= produced + zeros(cap - produced.len()));
    }
    Ok(result)
}

/// The big-endian value of the two bytes at `pos` and `pos + 1`.
pub open spec fn be16_at(data: Seq<u8>, pos: int) -> int {
    data[pos] as int * 256 + data[pos + 1] as int
}

/// Decodes the run of blocks in `data` from index `pos` on, `out` being what
/// the earlier blocks produced.
pub open spec fn pre_decode_from(data: Seq<u8>, pos: int, out: Seq<u8>) -> Result<
    Seq<u8>,
    PreEnsmalleningError,
>
    decreases data.len() - pos,
{
    if pos < 0 || pos >= data.len() {
        Ok(out)
    } else if pos + 4 > data.len() {
        Err(PreEnsmalleningError::BlockHeaderIncomplete)
    } else {
        let comp_len = be16_at(data, pos);
        let decomp_len = be16_at(data, pos + 2);
        let start = pos + 4;
        if start + comp_len > data.len() {
            Err(PreEnsmalleningError::BlockDataIncomplete)
        } else {
            let payload = data.subrange(start, start + comp_len);
            if comp_len == decomp_len {
                pre_decode_from(data, start + comp_len, out + payload)
            } else {
                match lz_decode(payload, decomp_len) {
                    Ok(block) => pre_decode_from(data, start + comp_len, out + block),
                    Err(e) => Err(PreEnsmalleningError::CustomLz(e)),
                }
            }
        }
    }
}

/// The decompression of a whole pre-ensmallening payload.
pub open spec fn pre_decode(data: Seq<u8>) -> Result<Seq<u8>, PreEnsmalleningError> {
    pre_decode_from(data, 0, Seq::empty())
}

/// Decompresses a pre-ensmallening payload: the `compressed_data` read from
/// a cache at a file's offset, `decompressed_len` being the file's size,
/// which only sizes the output buffer up front.
pub fn decompress_pre_ensmallening(compressed_data: &[u8], decompressed_len: usize) -> (res:
    Result<Vec<u8>, PreEnsmalleningError>)
    ensures
        match res {
            Ok(v) => pre_decode(compressed_data@) == Ok::<Seq<u8>, PreEnsmalleningError>(v@),
            Err(e) => pre_decode(compressed_data@) == Err::<Seq<u8>, PreEnsmalleningError>(e),
        },
{
    let mut decompressed_data: Vec<u8> = Vec::with_capacity(decompressed_len);
    let mut pos: usize = 0;
    let ghost data = compressed_data@;

    while pos < compressed_data.len()
        invariant
            data == compressed_data@,
            pos <= compressed_data.len(),
            pre_decode(data) == pre_decode_from(data, pos as int, decompressed_data@),
        decreases compressed_data.len() - pos,
    {
        if compressed_data.len() - pos < 4 {
            return Err(PreEnsmalleningError::BlockHeaderIncomplete);
        }
        let block_comp_len = compressed_data[pos] as usize * 256 + compressed_data[pos + 1] as usize;
        let block_decomp_len = compressed_data[pos + 2] as usize * 256
            + compressed_data[pos + 3] as usize;
        pos += 4;

        if block_comp_len > compressed_data.len() - pos {
            return Err(PreEnsmalleningError::BlockDataIncomplete);
        }

        let compressed_payload = vstd::slice::slice_subrange(
            compressed_data,
            pos,
            pos + block_comp_len,
        );
        pos += block_comp_len;

        if block_comp_len == block_decomp_len {
            let ghost before = decompressed_data@;
            decompressed_data.extend_from_slice(compressed_payload);
            assert(decompressed_data@ =~= before + compressed_payload@);
        } else {
            match decompress_custom_lz(compressed_payload, block_decomp_len) {
                Ok(mut decomp) => {
                    decompressed_data.append(&mut decomp);
                },
                Err(e) => {
                    return Err(PreEnsmalleningError::CustomLz(e));
                },
            }
        }
    }

    Ok(decompressed_data)
}

/// The bytes of `d` written as a stream of literal runs of at most 32 bytes
/// each (code word `k - 1` followed by `k` bytes).
pub open spec fn literal_runs(d: Seq<u8>) -> Seq<u8>
    decreases d.len(),
{
    if d.len() == 0 {
        Seq::empty()
    } else {
        let k = if d.len() < 32 {
            d.len() as int
        } else {
            32
        };
        seq![(k - 1) as u8] + d.subrange(0, k) + literal_runs(d.subrange(k, d.len() as int))
    }
}

/// Decoding does not depend on bytes before the current position.
proof fn lemma_lz_shift(pre: Seq<u8>, s: Seq<u8>, i: int, out: Seq<u8>, cap: int)
    requires
        0 <= i,
    ensures
        lz_decode_from(pre + s, pre.len() + i, out, cap) == lz_decode_from(s, i, out, cap),
    decreases s.len() - i,
{
    let c = pre + s;
    let p = pre.len() as int;
    if i < s.len() {
        let code = s[i] as int;
        assert(c[p + i] == s[i]);
        let cpos1 = i + 1;
        if code < 32 {
            let n = code + 1;
            if out.len() + n <= cap && cpos1 + n <= s.len() {
                assert(c.subrange(p + cpos1, p + cpos1 + n) =~= s.subrange(cpos1, cpos1 + n));
                lemma_lz_shift(pre, s, cpos1 + n, out + s.subrange(cpos1, cpos1 + n), cap);
            }
        } else if !(code / 32 == 7 && cpos1 >= s.len()) {
            if code / 32 == 7 {
                assert(c[p + cpos1] == s[cpos1]);
            }
            let len0 = if code / 32 == 7 { 7 + s[cpos1] as int } else { code / 32 };
            let cpos2 = if code / 32 == 7 { cpos1 + 1 } else { cpos1 };
            if cpos2 < s.len() {
                assert(c[p + cpos2] == s[cpos2]);
                let dist = (code % 32) * 256 + s[cpos2] as int;
                let n = len0 + 2;
                if out.len() + n <= cap && dist < out.len() {
                    lemma_lz_shift(
                        pre,
                        s,
                        cpos2 + 1,
                        lookbehind_copy(out, out.len() - 1 - dist, n as nat),
                        cap,
                    );
                }
            }
        }
    }
}

proof fn lemma_literal_runs_from(d: Seq<u8>, out: Seq<u8>, cap: int)
    requires
        out.len() + d.len() <= cap,
    ensures
        lz_decode_from(literal_runs(d), 0, out, cap) == Ok::<Seq<u8>, LzError>(out + d),
    decreases d.len(),
{
    if d.len() == 0 {
        assert(out + d =~= out);
    } else {
        let k = if d.len() < 32 { d.len() as int } else { 32 };
        let rest = d.subrange(k, d.len() as int);
        let pre = seq![(k - 1) as u8] + d.subrange(0, k);
        let comp = literal_runs(d);
        assert(comp == pre + literal_runs(rest));
        assert(comp[0] == (k - 1) as u8);
        assert(comp.subrange(1, 1 + k) =~= d.subrange(0, k));
        lemma_literal_runs_from(rest, out + d.subrange(0, k), cap);
        lemma_lz_shift(pre, literal_runs(rest), 0, out + d.subrange(0, k), cap);
        assert(out + d.subrange(0, k) + rest =~= out + d);
    }
}

/// Law: a stream of literal runs decodes back to exactly the bytes that it
/// carries.
pub proof fn law_literal_runs_decode(d: Seq<u8>)
    ensures
        lz_decode(literal_runs(d), d.len() as int) == Ok::<Seq<u8>, LzError>(d),
{
    lemma_literal_runs_from(d, Seq::empty(), d.len() as int);
    assert(Seq::<u8>::empty() + d =~= d);
    assert(d + zeros(0) =~= d);
}

proof fn lemma_literal_runs_then(d: Seq<u8>, s: Seq<u8>, out: Seq<u8>, cap: int)
    requires
        out.len() + d.len() <= cap,
    ensures
        lz_decode_from(literal_runs(d) + s, 0, out, cap) == lz_decode_from(s, 0, out + d, cap),
    decreases d.len(),
{
    if d.len() == 0 {
        assert(literal_runs(d) + s =~= s);
        assert(out + d =~= out);
    } else {
        let k = if d.len() < 32 { d.len() as int } else { 32 };
        let rest = d.subrange(k, d.len() as int);
        let pre = seq![(k - 1) as u8] + d.subrange(0, k);
        let comp = literal_runs(d) + s;
        assert(literal_runs(d) == pre + literal_runs(rest));
        assert(comp =~= pre + (literal_runs(rest) + s));
        assert(comp[0] == (k - 1) as u8);
        assert(comp.subrange(1, 1 + k) =~= d.subrange(0, k));
        lemma_lz_shift(pre, literal_runs(rest) + s, 0, out + d.subrange(0, k), cap);
        lemma_literal_runs_then(rest, s, out + d.subrange(0, k), cap);
        assert(out + d.subrange(0, k) + rest =~= out + d);
    }
}

proof fn lemma_lookbehind_elems(out: Seq<u8>, start: int, n: nat)
    requires
        0 <= start < out.len(),
    ensures
        lookbehind_copy(out, start, n).len() == out.len() + n,
        lookbehind_copy(out, start, n).subrange(0, out.len() as int) == out,
        forall|k: int|
            0 <= k < n ==> #[trigger] lookbehind_copy(out, start, n)[out.len() + k]
                == lookbehind_copy(out, start, n)[start + k],
    decreases n,
{
    lemma_lookbehind_copy(out, start, n);
    if n > 0 {
        lemma_lookbehind_elems(out, start, (n - 1) as nat);
        let s = lookbehind_copy(out, start, (n - 1) as nat);
        let t = lookbehind_copy(out, start, n);
        assert(t == s.push(s[start + n - 1]));
        assert forall|k: int| 0 <= k < n implies #[trigger] t[out.len() + k] == t[start + k] by {
            if k < n - 1 {
                assert(s[out.len() + k] == s[start + k]);
            }
        }
    }
}

/// Law: after literal bytes `d`, a match code word `c` (below `0xE0`, so
/// with no length extension) and its distance byte `l` append
/// `(c >> 5) + 2` bytes, each a copy of the byte `D + 1` places before it,
/// where the distance `D` is `(c & 0x1F) * 256 + l`: the low five bits of
/// the code word are the high byte of the distance. The rest of the buffer
/// stays zero.
pub proof fn law_lz_match_copies_back(d: Seq<u8>, c: u8, l: u8, cap: int)
    requires
        32 <= c < 224,
        ((c & 0x1F) as int) * 256 + (l as int) < d.len(),
        d.len() + (c >> 5) as int + 2 <= cap,
    ensures
        ({
            let dist = ((c & 0x1F) as int) * 256 + (l as int);
            let n = (c >> 5) as int + 2;
            let r = lz_decode(literal_runs(d) + seq![c, l], cap);
            &&& r is Ok
            &&& r->Ok_0.len() == cap
            &&& r->Ok_0.subrange(0, d.len() as int) == d
            &&& forall|k: int|
                0 <= k < n ==> #[trigger] r->Ok_0[d.len() + k] == r->Ok_0[d.len() - 1 - dist + k]
            &&& forall|k: int| d.len() + n <= k < cap ==> #[trigger] r->Ok_0[k] == 0
        }),
{
    assert((c & 0x1F) == c % 32 && (c >> 5) == c / 32) by (bit_vector);
    let dist = ((c & 0x1F) as int) * 256 + (l as int);
    let n = (c >> 5) as int + 2;
    let s = seq![c, l];
    lemma_literal_runs_then(d, s, Seq::empty(), cap);
    assert(Seq::<u8>::empty() + d =~= d);
    let start = d.len() - 1 - dist;
    lemma_lookbehind_elems(d, start, n as nat);
    let out = lookbehind_copy(d, start, n as nat);
    assert(lz_decode_from(s, 2, out, cap) == Ok::<Seq<u8>, LzError>(out));
    assert(lz_decode_from(s, 0, d, cap) == Ok::<Seq<u8>, LzError>(out));
    let v = out + zeros(cap - out.len());
    assert(lz_decode(literal_runs(d) + s, cap) == Ok::<Seq<u8>, LzError>(v));
    assert(v.subrange(0, d.len() as int) =~= out.subrange(0, d.len() as int));
    assert forall|k: int| 0 <= k < n implies #[trigger] v[d.len() + k] == v[d.len() - 1 - dist + k] by {
        assert(out[d.len() + k] == out[start + k]);
    }
}

/// A block that stores `p` verbatim: equal compressed and decompressed
/// lengths in its header, then the bytes of `p`.
pub open spec fn stored_block(p: Seq<u8>) -> Seq<u8> {
    let n = p.len() as int;
    seq![(n / 256) as u8, (n % 256) as u8, (n / 256) as u8, (n % 256) as u8] + p
}

/// Law: a stored block decompresses to its own bytes.
pub proof fn law_stored_block_decode(p: Seq<u8>)
    requires
        p.len() < 0x1_0000,
    ensures
        pre_decode(stored_block(p)) == Ok::<Seq<u8>, PreEnsmalleningError>(p),
{
    let d = stored_block(p);
    let n = p.len() as int;
    assert(be16_at(d, 0) == n);
    assert(be16_at(d, 2) == n);
    assert(d.subrange(4, 4 + n) =~= p);
    assert(Seq::<u8>::empty() + p =~= p);
    assert(pre_decode_from(d, 4 + n, p) == Ok::<Seq<u8>, PreEnsmalleningError>(p));
}

/// `r` with `prefix` put in front of its decoded bytes.
pub open spec fn prepend_output(prefix: Seq<u8>, r: Result<Seq<u8>, PreEnsmalleningError>) -> Result<
    Seq<u8>,
    PreEnsmalleningError,
> {
    match r {
        Ok(v) => Ok(prefix + v),
        Err(e) => Err(e),
    }
}

proof fn lemma_pre_prefix(d: Seq<u8>, pos: int, o1: Seq<u8>, o2: Seq<u8>)
    ensures
        pre_decode_from(d, pos, o1 + o2) == prepend_output(o1, pre_decode_from(d, pos, o2)),
    decreases d.len() - pos,
{
    if 0 <= pos < d.len() && pos + 4 <= d.len() {
        let comp_len = be16_at(d, pos);
        let decomp_len = be16_at(d, pos + 2);
        let start = pos + 4;
        if start + comp_len <= d.len() {
            let payload = d.subrange(start, start + comp_len);
            if comp_len == decomp_len {
                assert(o1 + o2 + payload =~= o1 + (o2 + payload));
                lemma_pre_prefix(d, start + comp_len, o1, o2 + payload);
            } else if let Ok(block) = lz_decode(payload, decomp_len) {
                assert(o1 + o2 + block =~= o1 + (o2 + block));
                lemma_pre_prefix(d, start + comp_len, o1, o2 + block);
            }
        }
    }
}

proof fn lemma_pre_shift(a: Seq<u8>, b: Seq<u8>, i: int, out: Seq<u8>)
    requires
        0 <= i,
    ensures
        pre_decode_from(a + b, a.len() + i, out) == pre_decode_from(b, i, out),
    decreases b.len() - i,
{
    let c = a + b;
    let p = a.len() as int;
    if i < b.len() && i + 4 <= b.len() {
        assert(c[p + i] == b[i] && c[p + i + 1] == b[i + 1]);
        assert(c[p + i + 2] == b[i + 2] && c[p + i + 3] == b[i + 3]);
        let comp_len = be16_at(b, i);
        let decomp_len = be16_at(b, i + 2);
        let start = i + 4;
        if start + comp_len <= b.len() {
            let payload = b.subrange(start, start + comp_len);
            assert(c.subrange(p + start, p + start + comp_len) =~= payload);
            if comp_len == decomp_len {
                lemma_pre_shift(a, b, start + comp_len, out + payload);
            } else if let Ok(block) = lz_decode(payload, decomp_len) {
                lemma_pre_shift(a, b, start + comp_len, out + block);
            }
        }
    }
}

proof fn lemma_pre_run_prefix(a: Seq<u8>, b: Seq<u8>, pos: int, out: Seq<u8>)
    requires
        0 <= pos <= a.len(),
        pre_decode_from(a, pos, out) is Ok,
    ensures
        pre_decode_from(a + b, pos, out) == pre_decode_from(
            a + b,
            a.len() as int,
            pre_decode_from(a, pos, out)->Ok_0,
        ),
    decreases a.len() - pos,
{
    let c = a + b;
    if pos < a.len() {
        assert(c[pos] == a[pos] && c[pos + 1] == a[pos + 1]);
        assert(c[pos + 2] == a[pos + 2] && c[pos + 3] == a[pos + 3]);
        let comp_len = be16_at(a, pos);
        let decomp_len = be16_at(a, pos + 2);
        let start = pos + 4;
        let payload = a.subrange(start, start + comp_len);
        assert(c.subrange(start, start + comp_len) =~= payload);
        if comp_len == decomp_len {
            lemma_pre_run_prefix(a, b, start + comp_len, out + payload);
        } else {
            let block = lz_decode(payload, decomp_len)->Ok_0;
            lemma_pre_run_prefix(a, b, start + comp_len, out + block);
        }
    }
}

/// Law: the decompression of two payloads written one after the other is
/// the first one's output followed by the second one's (or the second one's
/// error).
pub proof fn law_pre_decode_concat(a: Seq<u8>, b: Seq<u8>)
    requires
        pre_decode(a) is Ok,
    ensures
        pre_decode(a + b) == prepend_output(pre_decode(a)->Ok_0, pre_decode(b)),
{
    let x = pre_decode(a)->Ok_0;
    lemma_pre_run_prefix(a, b, 0, Seq::empty());
    lemma_pre_shift(a, b, 0, x);
    lemma_pre_prefix(b, 0, x, Seq::empty());
    assert(x + Seq::<u8>::empty() =~= x);
}

} // verus!
