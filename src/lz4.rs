use vstd::prelude::*;

use crate::binary::{
    copy_range, lemma_u32_prefix, lemma_u32_round_trip, read_u32, rest, u32_bytes, write_bytes,
    write_u32, Endian,
};
use crate::error::Error;

verus! {

/// Reads the continuation of a length: each byte 255 adds 255 and goes on, the first other byte
/// adds itself and ends it. Fails with `TruncatedInput` where the input ends first. Returns the
/// length and the position after it.
pub open spec fn ext_len(inp: Seq<u8>, pos: int, acc: nat) -> Result<(nat, int), Error>
    decreases inp.len() - pos,
{
    if pos < 0 || pos >= inp.len() {
        Err(Error::TruncatedInput)
    } else if inp[pos] == 255 {
        ext_len(inp, pos + 1, acc + 255)
    } else {
        Ok((acc + inp[pos] as nat, pos + 1))
    }
}

/// A length whose 4-bit start is `base`: 15 announces a continuation.
pub open spec fn nibble_len(inp: Seq<u8>, pos: int, base: nat) -> Result<(nat, int), Error> {
    if base == 15 {
        ext_len(inp, pos, 15)
    } else {
        Ok((base, pos))
    }
}

/// Appends `m` bytes, each copied from `off` bytes before the end of what is there.
pub open spec fn copy_match(out: Seq<u8>, off: nat, m: nat) -> Seq<u8>
    decreases m,
{
    if m == 0 {
        out
    } else {
        copy_match(out.push(out[out.len() - off]), off, (m - 1) as nat)
    }
}

/// The decoding of the sequences of `inp` from `pos` on, after `out` has been produced, for a
/// declared size `n`: a token (literal length, match length), the literals, then, unless the
/// input ends there, a 16-bit little-endian offset and a match of at least four bytes. Where the
/// input ends inside a token, its literals or its offset, the result is `TruncatedInput`, whatever
/// the declared size; a size is held against `n` only once what declares it has been read.
pub open spec fn block_from(inp: Seq<u8>, pos: int, out: Seq<u8>, n: nat) -> Result<Seq<u8>, Error>
    decreases inp.len() - pos,
{
    if pos < 0 || out.len() > n {
        Err(Error::SizeMismatch)
    } else if pos >= inp.len() {
        if out.len() == n {
            Ok(out)
        } else {
            Err(Error::SizeMismatch)
        }
    } else {
        let token = inp[pos];
        match nibble_len(inp, pos + 1, (token / 16) as nat) {
            Err(err) => Err(err),
            Ok((l, p)) => if p + l > inp.len() {
                Err(Error::TruncatedInput)
            } else if p + l == inp.len() {
                if out.len() + l != n {
                    Err(Error::SizeMismatch)
                } else {
                    Ok(out + inp.subrange(p, p + l))
                }
            } else if p + l + 2 > inp.len() {
                Err(Error::TruncatedInput)
            } else {
                let p2 = p + l;
                match nibble_len(inp, p2 + 2, (token % 16) as nat) {
                    Err(err) => Err(err),
                    Ok((m0, p3)) => {
                        let out2 = out + inp.subrange(p, p2);
                        let off = inp[p2] as nat + 256 * inp[p2 + 1] as nat;
                        let m = m0 + 4;
                        if l > n - out.len() {
                            Err(Error::SizeMismatch)
                        } else if off == 0 || off > out2.len() {
                            Err(Error::InvalidBackReference)
                        } else if m > n - out2.len() {
                            Err(Error::SizeMismatch)
                        } else if p3 <= pos || p3 > inp.len() {
                            Err(Error::TruncatedInput)
                        } else {
                            block_from(inp, p3, copy_match(out2, off, m), n)
                        }
                    },
                }
            },
        }
    }
}

/// The decoding of a whole block of declared size `n`.
pub open spec fn spec_block_decode(inp: Seq<u8>, n: nat) -> Result<Seq<u8>, Error> {
    block_from(inp, 0, Seq::empty(), n)
}

fn read_ext_len(inp: &[u8], pos: usize, acc0: u128) -> (r: Result<(u128, usize), Error>)
    requires
        acc0 <= 15,
    ensures
        match r {
            Ok((l, p)) => ext_len(inp@, pos as int, acc0 as nat) == Ok::<(nat, int), Error>((l as nat, p as int))
                && l <= 0x1_0000_0000_0000_0000_00 && p <= inp@.len(),
            Err(err) => ext_len(inp@, pos as int, acc0 as nat) == Err::<(nat, int), Error>(err),
        },
{
    let mut acc = acc0;
    let mut p = pos;
    let len = inp.len();
    loop
        invariant
            len == inp@.len(),
            len <= usize::MAX,
            pos <= p,
            p <= pos || p <= len,
            acc <= 15 + 255 * (p - pos),
            ext_len(inp@, p as int, acc as nat) == ext_len(inp@, pos as int, acc0 as nat),
        decreases inp@.len() - p,
    {
        if p >= len {
            return Err(Error::TruncatedInput);
        }
        assert(acc + 255 + 255 <= 0x1_0000_0000_0000_0000_00) by (nonlinear_arith)
            requires
                acc <= 15 + 255 * (p - pos),
                p < len,
                len <= usize::MAX,
                usize::MAX <= 0xffff_ffff_ffff_ffff,
        ;
        let b = inp[p];
        if b == 255 {
            acc = acc + 255;
            p = p + 1;
        } else {
            return Ok((acc + b as u128, p + 1));
        }
    }
}

fn read_nibble_len(inp: &[u8], pos: usize, base: u128) -> (r: Result<(u128, usize), Error>)
    requires
        base <= 15,
        pos <= inp@.len(),
    ensures
        match r {
            Ok((l, p)) => nibble_len(inp@, pos as int, base as nat) == Ok::<(nat, int), Error>((l as nat, p as int))
                && l <= 0x1_0000_0000_0000_0000_00 && pos <= p <= inp@.len(),
            Err(err) => nibble_len(inp@, pos as int, base as nat) == Err::<(nat, int), Error>(err),
        },
{
    if base == 15 {
        let r = read_ext_len(inp, pos, 15);
        proof {
            if let Ok((l, p)) = r {
                lemma_ext_len_advances(inp@, pos as int, 15);
            }
        }
        r
    } else {
        Ok((base, pos))
    }
}

proof fn lemma_ext_len_advances(inp: Seq<u8>, pos: int, acc: nat)
    ensures
        ext_len(inp, pos, acc) matches Ok((l, p)) ==> pos < p,
    decreases inp.len() - pos,
{
    if 0 <= pos < inp.len() && inp[pos] == 255 {
        lemma_ext_len_advances(inp, pos + 1, acc + 255);
    }
}

/// Appends the bytes of `inp` from `from` up to `to`.
fn push_range(inp: &[u8], from: usize, to: usize, out: &mut Vec<u8>)
    requires
        from <= to <= inp@.len(),
    ensures
        final(out)@ == old(out)@ + inp@.subrange(from as int, to as int),
{
    let mut i: usize = from;
    while i < to
        invariant
            from <= i <= to,
            to <= inp@.len(),
            out@ == old(out)@ + inp@.subrange(from as int, i as int),
        decreases to - i,
    {
        out.push(inp[i]);
        i = i + 1;
        proof {
            assert(out@ =~= old(out)@ + inp@.subrange(from as int, i as int));
        }
    }
}

/// Decompresses a block whose declared decompressed size is `n`. Fails with `TruncatedInput`
/// where a token, a length, literals or an offset run past the input, with
/// `InvalidBackReference` where an offset is zero or reaches before the start of the output, and
/// with `SizeMismatch` where the output would not be exactly `n` bytes.
pub fn block_decode(inp: &[u8], n: u32) -> (r: Result<Vec<u8>, Error>)
    ensures
        match r {
            Ok(v) => spec_block_decode(inp@, n as nat) == Ok::<Seq<u8>, Error>(v@),
            Err(err) => spec_block_decode(inp@, n as nat) == Err::<Seq<u8>, Error>(err),
        },
{
    let mut out: Vec<u8> = Vec::new();
    let mut pos: usize = 0;
    loop
        invariant
            out@.len() <= n,
            pos <= inp@.len(),
            block_from(inp@, pos as int, out@, n as nat) == spec_block_decode(inp@, n as nat),
        decreases inp@.len() - pos,
    {
        if pos >= inp.len() {
            if out.len() == n as usize {
                return Ok(out);
            } else {
                return Err(Error::SizeMismatch);
            }
        }
        let token = inp[pos];
        let (l, p) = match read_nibble_len(inp, pos + 1, (token / 16) as u128) {
            Ok(got) => got,
            Err(err) => return Err(err),
        };
        if l > (inp.len() - p) as u128 {
            return Err(Error::TruncatedInput);
        }
        let l = l as usize;
        let p2 = p + l;
        if p2 == inp.len() {
            if out.len() as u128 + l as u128 != n as u128 {
                return Err(Error::SizeMismatch);
            }
            push_range(inp, p, p2, &mut out);
            return Ok(out);
        }
        if inp.len() - p2 < 2 {
            return Err(Error::TruncatedInput);
        }
        let (m0, p3) = match read_nibble_len(inp, p2 + 2, (token % 16) as u128) {
            Ok(got) => got,
            Err(err) => return Err(err),
        };
        if l > n as usize - out.len() {
            return Err(Error::SizeMismatch);
        }
        push_range(inp, p, p2, &mut out);
        let off = inp[p2] as usize + 256 * inp[p2 + 1] as usize;
        if off == 0 || off > out.len() {
            return Err(Error::InvalidBackReference);
        }
        let m = m0 + 4;
        if m > (n as usize - out.len()) as u128 {
            return Err(Error::SizeMismatch);
        }
        if p3 <= pos || p3 > inp.len() {
            return Err(Error::TruncatedInput);
        }
        let m = m as usize;
        let ghost out2 = out@;
        let mut j: usize = 0;
        while j < m
            invariant
                0 < off <= out2.len(),
                out2.len() <= out@.len(),
                out@.len() == out2.len() + j,
                out2.len() + m <= n,
                j <= m,
                copy_match(out@, off as nat, (m - j) as nat) == copy_match(out2, off as nat, m as nat),
            decreases m - j,
        {
            let x = out[out.len() - off];
            out.push(x);
            j = j + 1;
        }
        pos = p3;
    }
}

/// Where a block decodes, it decodes to exactly the declared size: never a truncated or padded
/// output.
pub proof fn lemma_block_size_contract(inp: Seq<u8>, pos: int, out: Seq<u8>, n: nat)
    ensures
        block_from(inp, pos, out, n) matches Ok(v) ==> v.len() == n,
    decreases inp.len() - pos,
{
    if 0 <= pos < inp.len() && out.len() <= n {
        let token = inp[pos];
        lemma_ext_len_advances(inp, pos + 1, 15);
        if let Ok((l, p)) = nibble_len(inp, pos + 1, (token / 16) as nat) {
            if p + l + 2 <= inp.len() {
                let p2 = p + l;
                if let Ok((m0, p3)) = nibble_len(inp, p2 + 2, (token % 16) as nat) {
                    let out2 = out + inp.subrange(p, p2);
                    let off = inp[p2] as nat + 256 * inp[p2 + 1] as nat;
                    if pos < p3 <= inp.len() {
                        lemma_block_size_contract(inp, p3, copy_match(out2, off, m0 + 4), n);
                    }
                }
            }
        }
    }
}

/// The continuation bytes that write the length `r`.
pub open spec fn ext_bytes(r: nat) -> Seq<u8>
    decreases r,
{
    if r < 255 {
        seq![r as u8]
    } else {
        seq![255u8] + ext_bytes((r - 255) as nat)
    }
}

/// A block that holds `x` as one run of literals.
pub open spec fn literal_block(x: Seq<u8>) -> Seq<u8> {
    if x.len() == 0 {
        Seq::empty()
    } else if x.len() < 15 {
        seq![(x.len() * 16) as u8] + x
    } else {
        seq![0xf0u8] + ext_bytes((x.len() - 15) as nat) + x
    }
}

pub proof fn lemma_ext_bytes(t: Seq<u8>, p: int, acc: nat, r: nat)
    requires
        0 <= p,
        p + ext_bytes(r).len() <= t.len(),
        t.subrange(p, p + ext_bytes(r).len()) == ext_bytes(r),
    ensures
        ext_len(t, p, acc) == Ok::<(nat, int), Error>((acc + r, p + ext_bytes(r).len())),
        ext_bytes(r).len() == r / 255 + 1,
    decreases r,
{
    assert(t[p] == t.subrange(p, p + ext_bytes(r).len())[0]);
    if r >= 255 {
        let e1 = ext_bytes((r - 255) as nat);
        assert(t.subrange(p + 1, p + 1 + e1.len() as int) =~= t.subrange(p, p + ext_bytes(r).len()).subrange(1, 1 + e1.len() as int));
        assert(ext_bytes(r).subrange(1, 1 + e1.len() as int) =~= e1);
        lemma_ext_bytes(t, p + 1, acc + 255, (r - 255) as nat);
    }
}

/// A literal block decodes back to what it holds.
pub proof fn lemma_literal_block(x: Seq<u8>)
    ensures
        spec_block_decode(literal_block(x), x.len()) == Ok::<Seq<u8>, Error>(x),
{
    let b = literal_block(x);
    let n = x.len();
    if n == 0 {
        assert(x =~= Seq::<u8>::empty());
    } else if n < 15 {
        assert(((n * 16) as u8) / 16 == n) by (nonlinear_arith)
            requires
                0 < n < 15,
        ;
        assert(b[0] == (n * 16) as u8);
        assert(nibble_len(b, 1, (b[0] / 16) as nat) == Ok::<(nat, int), Error>((n, 1)));
        assert(b.subrange(1, 1 + n as int) =~= x);
        assert(Seq::<u8>::empty() + x =~= x);
    } else {
        let r = (n - 15) as nat;
        let eb = ext_bytes(r);
        assert(b.subrange(1, 1 + eb.len() as int) =~= eb);
        lemma_ext_bytes(b, 1, 15, r);
        assert(b[0] == 0xf0u8);
        assert(nibble_len(b, 1, (b[0] / 16) as nat) == Ok::<(nat, int), Error>((n, 1 + eb.len() as int)));
        assert(b.subrange(1 + eb.len() as int, b.len() as int) =~= x);
        assert(Seq::<u8>::empty() + x =~= x);
    }
}

pub proof fn lemma_ext_bytes_len(r: nat)
    ensures
        ext_bytes(r).len() == r / 255 + 1,
    decreases r,
{
    if r >= 255 {
        lemma_ext_bytes_len((r - 255) as nat);
    }
}

/// The largest input that compression takes: its frame sizes must fit in 32 bits.
pub const MAX_COMPRESS_LEN: usize = 0xfe00_0000;

/// A framed block: the declared decompressed size, the block's size, then the block.
pub open spec fn frame_bytes(n: u32, block: Seq<u8>, e: Endian) -> Seq<u8> {
    u32_bytes(n, e) + u32_bytes(block.len() as u32, e) + block
}

/// The decompression of a framed block: the header must be there whole and the block must be
/// exactly as long as declared.
pub open spec fn spec_decompress(data: Seq<u8>, e: Endian) -> Result<Seq<u8>, Error> {
    if data.len() < 8 {
        Err(Error::TruncatedInput)
    } else {
        let n = crate::binary::u32_of(data, e);
        let c = crate::binary::u32_of(data.skip(4), e);
        if data.len() < 8 + c {
            Err(Error::TruncatedInput)
        } else if data.len() > 8 + c {
            Err(Error::SizeMismatch)
        } else {
            spec_block_decode(data.skip(8), n as nat)
        }
    }
}

/// Decompresses a framed block in byte order `e`.
pub fn lz4_decompress_data_with_header_parser(data: &[u8], e: Endian) -> (r: Result<Vec<u8>, Error>)
    ensures
        match r {
            Ok(v) => spec_decompress(data@, e) == Ok::<Seq<u8>, Error>(v@),
            Err(err) => spec_decompress(data@, e) == Err::<Seq<u8>, Error>(err),
        },
{
    if data.len() < 8 {
        return Err(Error::TruncatedInput);
    }
    let (n, p) = match read_u32(data, 0, e) {
        Ok(got) => got,
        Err(err) => return Err(err),
    };
    let (c, p) = match read_u32(data, p, e) {
        Ok(got) => got,
        Err(err) => return Err(err),
    };
    proof {
        assert(rest(data@, 0) =~= data@);
        lemma_u32_prefix(data@, n, e);
        assert(rest(data@, 4) =~= data@.skip(4));
        lemma_u32_prefix(data@.skip(4), c, e);
    }
    if c as usize > data.len() - 8 || c as u64 > (data.len() - 8) as u64 {
        return Err(Error::TruncatedInput);
    }
    if (c as usize) < data.len() - 8 {
        return Err(Error::SizeMismatch);
    }
    let block = copy_range(data, 8, data.len());
    proof {
        assert(block@ =~= data@.skip(8));
    }
    block_decode(block.as_slice(), n)
}

/// Frames `data` as a block in byte order `e`, appended to `out`. The block holds the data as
/// one run of literals, with no matches: it is a few bytes longer than the data, and any
/// decoder of the format reads it back.
pub fn lz4_compress_data_with_header_writer(data: &Vec<u8>, out: &mut Vec<u8>, e: Endian)
    requires
        data@.len() <= MAX_COMPRESS_LEN,
    ensures
        final(out)@ == old(out)@ + frame_bytes(data@.len() as u32, literal_block(data@), e),
{
    let n = data.len();
    let block_len: usize = if n == 0 {
        0
    } else if n < 15 {
        1 + n
    } else {
        proof {
            lemma_ext_bytes_len((n - 15) as nat);
        }
        2 + (n - 15) / 255 + n
    };
    proof {
        if n >= 15 {
            lemma_ext_bytes_len((n - 15) as nat);
        }
        assert(block_len == literal_block(data@).len());
    }
    write_u32(out, n as u32, e);
    write_u32(out, block_len as u32, e);
    let ghost start = out@;
    if n == 0 {
    } else if n < 15 {
        out.push((n * 16) as u8);
    } else {
        out.push(0xf0u8);
        let mut r: usize = n - 15;
        let ghost mid = out@;
        while r >= 255
            invariant
                out@ + ext_bytes(r as nat) == mid + ext_bytes((n - 15) as nat),
            decreases r,
        {
            let ghost before = out@;
            out.push(255u8);
            proof {
                assert(before + ext_bytes(r as nat) =~= out@ + ext_bytes((r - 255) as nat));
            }
            r = r - 255;
        }
        out.push(r as u8);
        proof {
            assert(out@ =~= mid + ext_bytes((n - 15) as nat));
        }
    }
    write_bytes(out, data);
    assert(final(out)@ =~= old(out)@ + frame_bytes(n as u32, literal_block(data@), e));
}

/// Round trip: decompressing what compression wrote gives the input back, in either byte order,
/// the empty input included.
pub proof fn lemma_lz4_round_trip(x: Seq<u8>, e: Endian)
    requires
        x.len() <= MAX_COMPRESS_LEN,
    ensures
        spec_decompress(frame_bytes(x.len() as u32, literal_block(x), e), e) == Ok::<Seq<u8>, Error>(x),
{
    let b = literal_block(x);
    let f = frame_bytes(x.len() as u32, b, e);
    if x.len() >= 15 {
        lemma_ext_bytes_len((x.len() - 15) as nat);
    }
    lemma_u32_round_trip(x.len() as u32, e);
    lemma_u32_round_trip(b.len() as u32, e);
    assert(f.subrange(0, 4) =~= u32_bytes(x.len() as u32, e));
    lemma_u32_prefix(f, x.len() as u32, e);
    assert(f.skip(4).subrange(0, 4) =~= u32_bytes(b.len() as u32, e));
    lemma_u32_prefix(f.skip(4), b.len() as u32, e);
    assert(f.skip(8) =~= b);
    lemma_literal_block(x);
}

/// Size contract: a framed block decompresses only to exactly the size its header declares.
pub proof fn lemma_lz4_size_contract(data: Seq<u8>, e: Endian)
    ensures
        spec_decompress(data, e) matches Ok(v) ==> data.len() >= 8 && v.len()
            == crate::binary::u32_of(data, e),
{
    if data.len() >= 8 {
        lemma_block_size_contract(data.skip(8), 0, Seq::empty(), crate::binary::u32_of(data, e) as nat);
    }
}

/// The decompression of an entry payload whose sizes the entry header declares: the payload
/// must be exactly `compressed_size` bytes, and decodes to exactly `uncompressed_size` bytes.
pub open spec fn spec_decompress_entry(payload: Seq<u8>, uncompressed_size: u32, compressed_size: u32) -> Result<Seq<u8>, Error> {
    if payload.len() < compressed_size {
        Err(Error::TruncatedInput)
    } else if payload.len() > compressed_size {
        Err(Error::SizeMismatch)
    } else {
        spec_block_decode(payload, uncompressed_size as nat)
    }
}

/// Decompresses an entry payload whose sizes the entry header declares.
pub fn lz4_decompress_entry(payload: &[u8], uncompressed_size: u32, compressed_size: u32) -> (r:
    Result<Vec<u8>, Error>)
    ensures
        match r {
            Ok(v) => spec_decompress_entry(payload@, uncompressed_size, compressed_size) == Ok::<Seq<u8>, Error>(v@),
            Err(err) => spec_decompress_entry(payload@, uncompressed_size, compressed_size) == Err::<Seq<u8>, Error>(err),
        },
{
    if (payload.len() as u64) < compressed_size as u64 {
        return Err(Error::TruncatedInput);
    }
    if payload.len() as u64 > compressed_size as u64 {
        return Err(Error::SizeMismatch);
    }
    block_decode(payload, uncompressed_size)
}

/// Size contract for entries: a payload decompresses only to exactly the size its entry header
/// declares.
pub proof fn lemma_entry_size_contract(payload: Seq<u8>, uncompressed_size: u32, compressed_size: u32)
    ensures
        spec_decompress_entry(payload, uncompressed_size, compressed_size) matches Ok(v) ==> v.len()
            == uncompressed_size,
{
    lemma_block_size_contract(payload, 0, Seq::empty(), uncompressed_size as nat);
}

/// Where the sequences from `pos` decode in full to a size `m`, they fail under any other
/// declared size `n`, and fail with `SizeMismatch`.
pub proof fn lemma_block_from_other_size(inp: Seq<u8>, pos: int, out: Seq<u8>, m: nat, n: nat)
    requires
        block_from(inp, pos, out, m) is Ok,
        m != n,
    ensures
        block_from(inp, pos, out, n) == Err::<Seq<u8>, Error>(Error::SizeMismatch),
    decreases inp.len() - pos,
{
    if 0 <= pos < inp.len() && out.len() <= n {
        let token = inp[pos];
        lemma_ext_len_advances(inp, pos + 1, 15);
        if let Ok((l, p)) = nibble_len(inp, pos + 1, (token / 16) as nat) {
            if p + l + 2 <= inp.len() {
                let p2 = p + l;
                if let Ok((m0, p3)) = nibble_len(inp, p2 + 2, (token % 16) as nat) {
                    let out2 = out + inp.subrange(p, p2);
                    let off = inp[p2] as nat + 256 * inp[p2 + 1] as nat;
                    if pos < p3 <= inp.len() {
                        lemma_block_from_other_size(inp, p3, copy_match(out2, off, m0 + 4), m, n);
                    }
                }
            }
        }
    }
}

/// Size contract, by kind: a frame whose block decodes in full to a size other than the one its
/// header declares fails with `SizeMismatch`, never giving a truncated or padded output.
pub proof fn lemma_lz4_size_mismatch(data: Seq<u8>, e: Endian, m: nat)
    requires
        data.len() == 8 + crate::binary::u32_of(data.skip(4), e),
        spec_block_decode(data.skip(8), m) is Ok,
        m != crate::binary::u32_of(data, e),
    ensures
        spec_decompress(data, e) == Err::<Seq<u8>, Error>(Error::SizeMismatch),
{
    lemma_block_from_other_size(data.skip(8), 0, Seq::empty(), m, crate::binary::u32_of(data, e) as nat);
}

/// Re-compression: a frame that compression wrote decompresses to data that compresses back to
/// that very frame.
pub proof fn lemma_lz4_recompress(x: Seq<u8>, e: Endian)
    requires
        x.len() <= MAX_COMPRESS_LEN,
    ensures
        ({
            let c = frame_bytes(x.len() as u32, literal_block(x), e);
            spec_decompress(c, e) matches Ok(y) && frame_bytes(y.len() as u32, literal_block(y), e)
                == c
        }),
{
    lemma_lz4_round_trip(x, e);
}

/// Byte-order independence: the frames written in each byte order differ only in their headers,
/// and both decompress to the same data.
pub proof fn lemma_lz4_byte_order(x: Seq<u8>)
    requires
        x.len() <= MAX_COMPRESS_LEN,
    ensures
        spec_decompress(frame_bytes(x.len() as u32, literal_block(x), Endian::Little), Endian::Little)
            == spec_decompress(frame_bytes(x.len() as u32, literal_block(x), Endian::Big), Endian::Big),
        frame_bytes(x.len() as u32, literal_block(x), Endian::Little).skip(8) == frame_bytes(
            x.len() as u32,
            literal_block(x),
            Endian::Big,
        ).skip(8),
{
    lemma_lz4_round_trip(x, Endian::Little);
    lemma_lz4_round_trip(x, Endian::Big);
    lemma_u32_round_trip(x.len() as u32, Endian::Little);
    lemma_u32_round_trip(x.len() as u32, Endian::Big);
    lemma_u32_round_trip(literal_block(x).len() as u32, Endian::Little);
    lemma_u32_round_trip(literal_block(x).len() as u32, Endian::Big);
    assert(frame_bytes(x.len() as u32, literal_block(x), Endian::Little).skip(8) =~= literal_block(x));
    assert(frame_bytes(x.len() as u32, literal_block(x), Endian::Big).skip(8) =~= literal_block(x));
}

/// Size contract for entries, by kind: a payload of the declared compressed size that decodes in
/// full to another size than the declared one fails with `SizeMismatch`.
pub proof fn lemma_entry_size_mismatch(payload: Seq<u8>, uncompressed_size: u32, compressed_size: u32, m: nat)
    requires
        payload.len() == compressed_size,
        spec_block_decode(payload, m) is Ok,
        m != uncompressed_size,
    ensures
        spec_decompress_entry(payload, uncompressed_size, compressed_size) == Err::<Seq<u8>, Error>(
            Error::SizeMismatch,
        ),
{
    lemma_block_from_other_size(payload, 0, Seq::empty(), m, uncompressed_size as nat);
}

/// A length continuation fails only where the input ends inside it.
pub proof fn lemma_ext_len_truncated(inp: Seq<u8>, pos: int, acc: nat)
    ensures
        ext_len(inp, pos, acc) is Err ==> ext_len(inp, pos, acc) == Err::<(nat, int), Error>(
            Error::TruncatedInput,
        ),
    decreases inp.len() - pos,
{
    if 0 <= pos < inp.len() && inp[pos] == 255 {
        lemma_ext_len_truncated(inp, pos + 1, acc + 255);
    }
}

/// Truncation: where the input ends inside the sequence at `pos` (its literal length, its
/// literals, its offset, or its match length), the block fails with `TruncatedInput`, whatever
/// the declared size.
pub proof fn lemma_block_truncated(inp: Seq<u8>, pos: int, out: Seq<u8>, n: nat)
    requires
        0 <= pos < inp.len(),
        out.len() <= n,
        ({
            let token = inp[pos];
            match nibble_len(inp, pos + 1, (token / 16) as nat) {
                Err(_) => true,
                Ok((l, p)) => {
                    ||| p + l > inp.len()
                    ||| (p + l < inp.len() && p + l + 2 > inp.len())
                    ||| (p + l + 2 <= inp.len() && nibble_len(inp, p + l + 2, (token % 16) as nat) is Err)
                },
            }
        }),
    ensures
        block_from(inp, pos, out, n) == Err::<Seq<u8>, Error>(Error::TruncatedInput),
{
    let token = inp[pos];
    lemma_ext_len_truncated(inp, pos + 1, 15);
    if let Ok((l, p)) = nibble_len(inp, pos + 1, (token / 16) as nat) {
        if p + l + 2 <= inp.len() {
            lemma_ext_len_truncated(inp, p + l + 2, 15);
        }
    }
}

} // verus!
