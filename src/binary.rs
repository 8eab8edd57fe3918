use vstd::prelude::*;

use crate::error::Error;

verus! {

/// Byte order of every multi-byte field of a pool and of its records.
#[derive(Clone, Copy, Debug, PartialEq, Eq, Structural)]
pub enum Endian {
    Little,
    Big,
}

/// The value of four bytes, least significant first.
pub open spec fn le4(b0: u8, b1: u8, b2: u8, b3: u8) -> u32 {
    (b0 as u32) | ((b1 as u32) << 8) | ((b2 as u32) << 16) | ((b3 as u32) << 24)
}

/// The value of two bytes, least significant first.
pub open spec fn le2(b0: u8, b1: u8) -> u16 {
    (b0 as u16) | ((b1 as u16) << 8)
}

/// The four bytes of `x` in byte order `e`.
pub open spec fn u32_bytes(x: u32, e: Endian) -> Seq<u8> {
    let b0 = (x & 0xff) as u8;
    let b1 = ((x >> 8) & 0xff) as u8;
    let b2 = ((x >> 16) & 0xff) as u8;
    let b3 = ((x >> 24) & 0xff) as u8;
    match e {
        Endian::Little => seq![b0, b1, b2, b3],
        Endian::Big => seq![b3, b2, b1, b0],
    }
}

/// The two bytes of `x` in byte order `e`.
pub open spec fn u16_bytes(x: u16, e: Endian) -> Seq<u8> {
    let b0 = (x & 0xff) as u8;
    let b1 = ((x >> 8) & 0xff) as u8;
    match e {
        Endian::Little => seq![b0, b1],
        Endian::Big => seq![b1, b0],
    }
}

/// The number that the first four bytes of `s` hold in byte order `e`.
pub open spec fn u32_of(s: Seq<u8>, e: Endian) -> u32 {
    match e {
        Endian::Little => le4(s[0], s[1], s[2], s[3]),
        Endian::Big => le4(s[3], s[2], s[1], s[0]),
    }
}

/// The number that the first two bytes of `s` hold in byte order `e`.
pub open spec fn u16_of(s: Seq<u8>, e: Endian) -> u16 {
    match e {
        Endian::Little => le2(s[0], s[1]),
        Endian::Big => le2(s[1], s[0]),
    }
}

/// `p` is the beginning of `s`.
pub open spec fn starts_with(s: Seq<u8>, p: Seq<u8>) -> bool {
    p.len() <= s.len() && s.subrange(0, p.len() as int) == p
}

/// What follows position `pos` of `s`.
pub open spec fn rest(s: Seq<u8>, pos: int) -> Seq<u8> {
    s.subrange(pos, s.len() as int)
}

pub proof fn lemma_u32_round_trip(x: u32, e: Endian)
    ensures
        u32_bytes(x, e).len() == 4,
        u32_of(u32_bytes(x, e), e) == x,
{
    assert(le4(
        (x & 0xff) as u8,
        ((x >> 8) & 0xff) as u8,
        ((x >> 16) & 0xff) as u8,
        ((x >> 24) & 0xff) as u8,
    ) == x) by (bit_vector);
}

pub proof fn lemma_u16_round_trip(x: u16, e: Endian)
    ensures
        u16_bytes(x, e).len() == 2,
        u16_of(u16_bytes(x, e), e) == x,
{
    assert(le2((x & 0xff) as u8, ((x >> 8) & 0xff) as u8) == x) by (bit_vector);
}

/// Reading the four bytes of a number gives the number back, and rewriting what was read gives the
/// same bytes.
pub proof fn lemma_u32_of(s: Seq<u8>, e: Endian)
    requires
        s.len() >= 4,
    ensures
        u32_bytes(u32_of(s, e), e) == s.subrange(0, 4),
{
    let (b0, b1, b2, b3) = match e {
        Endian::Little => (s[0], s[1], s[2], s[3]),
        Endian::Big => (s[3], s[2], s[1], s[0]),
    };
    let x = le4(b0, b1, b2, b3);
    assert((x & 0xff) as u8 == b0 && ((x >> 8) & 0xff) as u8 == b1 && ((x >> 16) & 0xff) as u8
        == b2 && ((x >> 24) & 0xff) as u8 == b3) by (bit_vector)
        requires
            x == (b0 as u32) | ((b1 as u32) << 8) | ((b2 as u32) << 16) | ((b3 as u32) << 24),
    ;
    assert(u32_bytes(u32_of(s, e), e) =~= s.subrange(0, 4));
}

pub proof fn lemma_u16_of(s: Seq<u8>, e: Endian)
    requires
        s.len() >= 2,
    ensures
        u16_bytes(u16_of(s, e), e) == s.subrange(0, 2),
{
    let (b0, b1) = match e {
        Endian::Little => (s[0], s[1]),
        Endian::Big => (s[1], s[0]),
    };
    let x = le2(b0, b1);
    assert((x & 0xff) as u8 == b0 && ((x >> 8) & 0xff) as u8 == b1) by (bit_vector)
        requires
            x == (b0 as u16) | ((b1 as u16) << 8),
    ;
    assert(u16_bytes(u16_of(s, e), e) =~= s.subrange(0, 2));
}

/// A buffer that begins with the bytes of `x` reads as `x`.
pub proof fn lemma_u32_prefix(s: Seq<u8>, x: u32, e: Endian)
    requires
        starts_with(s, u32_bytes(x, e)),
    ensures
        u32_of(s, e) == x,
{
    lemma_u32_round_trip(x, e);
    let p = u32_bytes(x, e);
    assert(s[0] == p[0] && s[1] == p[1] && s[2] == p[2] && s[3] == p[3]);
}

pub proof fn lemma_u16_prefix(s: Seq<u8>, x: u16, e: Endian)
    requires
        starts_with(s, u16_bytes(x, e)),
    ensures
        u16_of(s, e) == x,
{
    lemma_u16_round_trip(x, e);
    let p = u16_bytes(x, e);
    assert(s[0] == p[0] && s[1] == p[1]);
}

/// A prefix made of two parts: the first begins `s`, the second begins what follows it.
pub proof fn lemma_starts_with_concat(s: Seq<u8>, a: Seq<u8>, b: Seq<u8>)
    ensures
        starts_with(s, a + b) <==> (starts_with(s, a) && starts_with(rest(s, a.len() as int), b)),
{
    if starts_with(s, a + b) {
        assert(s.subrange(0, a.len() as int) =~= (a + b).subrange(0, a.len() as int));
        assert(rest(s, a.len() as int).subrange(0, b.len() as int) =~= (a + b).subrange(
            a.len() as int,
            (a.len() + b.len()) as int,
        ));
        assert((a + b).subrange(0, a.len() as int) =~= a);
        assert((a + b).subrange(a.len() as int, (a.len() + b.len()) as int) =~= b);
    }
    if starts_with(s, a) && starts_with(rest(s, a.len() as int), b) {
        assert(s.subrange(0, (a.len() + b.len()) as int) =~= s.subrange(0, a.len() as int)
            + rest(s, a.len() as int).subrange(0, b.len() as int));
    }
}

pub proof fn lemma_starts_with_trans(s: Seq<u8>, p: Seq<u8>, q: Seq<u8>)
    requires
        starts_with(s, p),
        starts_with(p, q),
    ensures
        starts_with(s, q),
{
    assert(s.subrange(0, q.len() as int) =~= p.subrange(0, q.len() as int));
}

pub proof fn lemma_rest_rest(s: Seq<u8>, a: int, b: int)
    requires
        0 <= a,
        0 <= b,
        a + b <= s.len(),
    ensures
        rest(rest(s, a), b) == rest(s, a + b),
{
    assert(rest(rest(s, a), b) =~= rest(s, a + b));
}

/// The bytes of a sequence of 32-bit words, one after another.
pub open spec fn words_bytes(s: Seq<u32>, e: Endian) -> Seq<u8>
    decreases s.len(),
{
    if s.len() == 0 {
        Seq::empty()
    } else {
        words_bytes(s.drop_last(), e) + u32_bytes(s.last(), e)
    }
}

pub proof fn lemma_words_len(s: Seq<u32>, e: Endian)
    ensures
        words_bytes(s, e).len() == 4 * s.len(),
    decreases s.len(),
{
    if s.len() > 0 {
        lemma_words_len(s.drop_last(), e);
        lemma_u32_round_trip(s.last(), e);
    }
}

/// Two word sequences of one length whose bytes both begin `t` are equal.
pub proof fn lemma_words_unique(t: Seq<u8>, a: Seq<u32>, b: Seq<u32>, e: Endian)
    requires
        a.len() == b.len(),
        starts_with(t, words_bytes(a, e)),
        starts_with(t, words_bytes(b, e)),
    ensures
        a == b,
    decreases a.len(),
{
    if a.len() > 0 {
        let a0 = a.drop_last();
        let b0 = b.drop_last();
        lemma_starts_with_concat(t, words_bytes(a0, e), u32_bytes(a.last(), e));
        lemma_starts_with_concat(t, words_bytes(b0, e), u32_bytes(b.last(), e));
        lemma_words_unique(t, a0, b0, e);
        lemma_words_len(a0, e);
        lemma_u32_prefix(rest(t, 4 * a0.len() as int), a.last(), e);
        lemma_u32_prefix(rest(t, 4 * a0.len() as int), b.last(), e);
        assert(a =~= a0.push(a.last()));
        assert(b =~= b0.push(b.last()));
    } else {
        assert(a =~= b);
    }
}

/// A length-prefixed array of groups of `w` words: the number of groups, then the words.
pub open spec fn dyn_words_bytes(s: Seq<u32>, w: nat, e: Endian) -> Seq<u8> {
    u32_bytes((s.len() / w) as u32, e) + words_bytes(s, e)
}

pub open spec fn dyn_words_wf(s: Seq<u32>, w: nat) -> bool {
    &&& 0 < w
    &&& s.len() % w == 0
    &&& s.len() / w <= u32::MAX
}

/// A length-prefixed array of bytes: the number of bytes, then the bytes.
pub open spec fn dyn_bytes_bytes(s: Seq<u8>, e: Endian) -> Seq<u8> {
    u32_bytes(s.len() as u32, e) + s
}

pub open spec fn dyn_bytes_wf(s: Seq<u8>) -> bool {
    s.len() <= u32::MAX
}

pub proof fn lemma_dyn_words_unique(t: Seq<u8>, a: Seq<u32>, b: Seq<u32>, w: nat, e: Endian)
    requires
        dyn_words_wf(a, w),
        dyn_words_wf(b, w),
        starts_with(t, dyn_words_bytes(a, w, e)),
        starts_with(t, dyn_words_bytes(b, w, e)),
    ensures
        a == b,
{
    lemma_u32_round_trip((a.len() / w) as u32, e);
    lemma_starts_with_concat(t, u32_bytes((a.len() / w) as u32, e), words_bytes(a, e));
    lemma_starts_with_concat(t, u32_bytes((b.len() / w) as u32, e), words_bytes(b, e));
    lemma_u32_prefix(t, (a.len() / w) as u32, e);
    lemma_u32_prefix(t, (b.len() / w) as u32, e);
    vstd::arithmetic::div_mod::lemma_fundamental_div_mod(a.len() as int, w as int);
    vstd::arithmetic::div_mod::lemma_fundamental_div_mod(b.len() as int, w as int);
    lemma_words_unique(rest(t, 4), a, b, e);
}

pub proof fn lemma_dyn_bytes_unique(t: Seq<u8>, a: Seq<u8>, b: Seq<u8>, e: Endian)
    requires
        dyn_bytes_wf(a),
        dyn_bytes_wf(b),
        starts_with(t, dyn_bytes_bytes(a, e)),
        starts_with(t, dyn_bytes_bytes(b, e)),
    ensures
        a == b,
{
    lemma_u32_round_trip(a.len() as u32, e);
    lemma_starts_with_concat(t, u32_bytes(a.len() as u32, e), a);
    lemma_starts_with_concat(t, u32_bytes(b.len() as u32, e), b);
    lemma_u32_prefix(t, a.len() as u32, e);
    lemma_u32_prefix(t, b.len() as u32, e);
}

/// Reads a 32-bit number at `pos`; returns it with the position after it.
pub fn read_u32(buf: &[u8], pos: usize, e: Endian) -> (r: Result<(u32, usize), Error>)
    requires
        pos <= buf@.len(),
    ensures
        match r {
            Ok((x, end)) => end == pos + 4 && end <= buf@.len() && starts_with(
                rest(buf@, pos as int),
                u32_bytes(x, e),
            ),
            Err(err) => err == Error::TruncatedInput && buf@.len() < pos + 4,
        },
{
    if buf.len() - pos < 4 {
        return Err(Error::TruncatedInput);
    }
    let b0 = buf[pos];
    let b1 = buf[pos + 1];
    let b2 = buf[pos + 2];
    let b3 = buf[pos + 3];
    let x = match e {
        Endian::Little => (b0 as u32) | ((b1 as u32) << 8) | ((b2 as u32) << 16) | ((b3 as u32)
            << 24),
        Endian::Big => (b3 as u32) | ((b2 as u32) << 8) | ((b1 as u32) << 16) | ((b0 as u32)
            << 24),
    };
    proof {
        let t = rest(buf@, pos as int);
        assert(x == u32_of(t, e));
        lemma_u32_of(t, e);
    }
    Ok((x, pos + 4))
}

/// Reads a 16-bit number at `pos`; returns it with the position after it.
pub fn read_u16(buf: &[u8], pos: usize, e: Endian) -> (r: Result<(u16, usize), Error>)
    requires
        pos <= buf@.len(),
    ensures
        match r {
            Ok((x, end)) => end == pos + 2 && end <= buf@.len() && starts_with(
                rest(buf@, pos as int),
                u16_bytes(x, e),
            ),
            Err(err) => err == Error::TruncatedInput && buf@.len() < pos + 2,
        },
{
    if buf.len() - pos < 2 {
        return Err(Error::TruncatedInput);
    }
    let b0 = buf[pos];
    let b1 = buf[pos + 1];
    let x = match e {
        Endian::Little => (b0 as u16) | ((b1 as u16) << 8),
        Endian::Big => (b1 as u16) | ((b0 as u16) << 8),
    };
    proof {
        let t = rest(buf@, pos as int);
        assert(x == u16_of(t, e));
        lemma_u16_of(t, e);
    }
    Ok((x, pos + 2))
}

/// Appends the bytes of `x` in byte order `e`.
pub fn write_u32(out: &mut Vec<u8>, x: u32, e: Endian)
    ensures
        final(out)@ == old(out)@ + u32_bytes(x, e),
{
    let b0 = (x & 0xff) as u8;
    let b1 = ((x >> 8) & 0xff) as u8;
    let b2 = ((x >> 16) & 0xff) as u8;
    let b3 = ((x >> 24) & 0xff) as u8;
    match e {
        Endian::Little => {
            out.push(b0);
            out.push(b1);
            out.push(b2);
            out.push(b3);
        },
        Endian::Big => {
            out.push(b3);
            out.push(b2);
            out.push(b1);
            out.push(b0);
        },
    }
    assert(final(out)@ =~= old(out)@ + u32_bytes(x, e));
}

/// Appends the bytes of `x` in byte order `e`.
pub fn write_u16(out: &mut Vec<u8>, x: u16, e: Endian)
    ensures
        final(out)@ == old(out)@ + u16_bytes(x, e),
{
    let b0 = (x & 0xff) as u8;
    let b1 = ((x >> 8) & 0xff) as u8;
    match e {
        Endian::Little => {
            out.push(b0);
            out.push(b1);
        },
        Endian::Big => {
            out.push(b1);
            out.push(b0);
        },
    }
    assert(final(out)@ =~= old(out)@ + u16_bytes(x, e));
}

/// Reads `n` consecutive 32-bit words at `pos`.
pub fn read_words(buf: &[u8], pos: usize, n: usize, e: Endian) -> (r: Result<
    (Vec<u32>, usize),
    Error,
>)
    requires
        pos <= buf@.len(),
    ensures
        match r {
            Ok((v, end)) => v@.len() == n && end == pos + 4 * n && end <= buf@.len() && starts_with(
                rest(buf@, pos as int),
                words_bytes(v@, e),
            ),
            Err(err) => err == Error::TruncatedInput && buf@.len() < pos + 4 * n,
        },
{
    if (buf.len() - pos) / 4 < n {
        return Err(Error::TruncatedInput);
    }
    let mut v: Vec<u32> = Vec::new();
    let mut p: usize = pos;
    let mut i: usize = 0;
    while i < n
        invariant
            pos <= buf@.len(),
            pos + 4 * n <= buf@.len(),
            i <= n,
            p == pos + 4 * i,
            v@.len() == i,
            words_bytes(v@, e) == buf@.subrange(pos as int, p as int),
        decreases n - i,
    {
        let ghost before = v@;
        let (x, q) = match read_u32(buf, p, e) {
            Ok(got) => got,
            Err(err) => return Err(err),
        };
        v.push(x);
        proof {
            assert(v@.drop_last() =~= before);
            assert(buf@.subrange(pos as int, q as int) =~= buf@.subrange(pos as int, p as int)
                + rest(buf@, p as int).subrange(0, 4));
        }
        p = q;
        i = i + 1;
    }
    proof {
        lemma_words_len(v@, e);
        assert(rest(buf@, pos as int).subrange(0, 4 * n as int) =~= buf@.subrange(
            pos as int,
            p as int,
        ));
    }
    Ok((v, p))
}

/// Appends the bytes of the words `v`.
pub fn write_words(out: &mut Vec<u8>, v: &Vec<u32>, e: Endian)
    ensures
        final(out)@ == old(out)@ + words_bytes(v@, e),
{
    let mut i: usize = 0;
    while i < v.len()
        invariant
            i <= v@.len(),
            out@ == old(out)@ + words_bytes(v@.subrange(0, i as int), e),
        decreases v@.len() - i,
    {
        write_u32(out, v[i], e);
        proof {
            assert(v@.subrange(0, i + 1).drop_last() =~= v@.subrange(0, i as int));
        }
        i = i + 1;
        proof {
            assert(out@ =~= old(out)@ + words_bytes(v@.subrange(0, i as int), e));
        }
    }
    assert(v@.subrange(0, i as int) =~= v@);
}

/// Reads a length-prefixed array of groups of `w` words at `pos`.
pub fn read_dyn_words(buf: &[u8], pos: usize, w: usize, e: Endian) -> (r: Result<
    (Vec<u32>, usize),
    Error,
>)
    requires
        pos <= buf@.len(),
        1 <= w <= 16,
    ensures
        match r {
            Ok((v, end)) => {
                &&& dyn_words_wf(v@, w as nat)
                &&& end == pos + dyn_words_bytes(v@, w as nat, e).len()
                &&& starts_with(rest(buf@, pos as int), dyn_words_bytes(v@, w as nat, e))
            },
            Err(err) => err == Error::TruncatedInput && forall|s: Seq<u32>|
                dyn_words_wf(s, w as nat) ==> !starts_with(
                    rest(buf@, pos as int),
                    #[trigger] dyn_words_bytes(s, w as nat, e),
                ),
        },
{
    let (count, p) = match read_u32(buf, pos, e) {
        Ok(got) => got,
        Err(err) => {
            proof {
                assert forall|s: Seq<u32>| dyn_words_wf(s, w as nat) implies !starts_with(
                    rest(buf@, pos as int),
                    #[trigger] dyn_words_bytes(s, w as nat, e),
                ) by {
                    lemma_u32_round_trip((s.len() / w as nat) as u32, e);
                    lemma_words_len(s, e);
                }
            }
            return Err(err);
        },
    };
    assert((count as u64) * (w as u64) <= 16 * 0xffff_ffffu64) by (nonlinear_arith)
        requires
            w <= 16,
    ;
    let total: u64 = (count as u64) * (w as u64);
    if total > ((buf.len() - p) / 4) as u64 {
        proof {
            assert forall|s: Seq<u32>| dyn_words_wf(s, w as nat) implies !starts_with(
                rest(buf@, pos as int),
                #[trigger] dyn_words_bytes(s, w as nat, e),
            ) by {
                let c = (s.len() / w as nat) as u32;
                lemma_u32_round_trip(c, e);
                if starts_with(rest(buf@, pos as int), dyn_words_bytes(s, w as nat, e)) {
                    let t = rest(buf@, pos as int);
                    lemma_starts_with_concat(t, u32_bytes(c, e), words_bytes(s, e));
                    lemma_u32_prefix(t, c, e);
                    lemma_u32_prefix(t, count, e);
                    vstd::arithmetic::div_mod::lemma_fundamental_div_mod(s.len() as int, w as int);
                    assert(s.len() == total) by (nonlinear_arith)
                        requires
                            s.len() == w * (s.len() / (w as nat)) + s.len() % (w as nat),
                            s.len() % (w as nat) == 0,
                            count == s.len() / (w as nat),
                            total == count * w,
                    ;
                    lemma_words_len(s, e);
                }
            }
        }
        return Err(Error::TruncatedInput);
    }
    let (v, end) = match read_words(buf, p, total as usize, e) {
        Ok(got) => got,
        Err(err) => return Err(err),
    };
    proof {
        vstd::arithmetic::div_mod::lemma_div_multiples_vanish(count as int, w as int);
        vstd::arithmetic::div_mod::lemma_mod_multiples_basic(count as int, w as int);
        assert(v@.len() == w * count) by (nonlinear_arith)
            requires
                v@.len() == total,
                total == count * w,
        ;
        assert(v@.len() / w as nat == count);
        lemma_u32_of(rest(buf@, pos as int), e);
        lemma_starts_with_concat(rest(buf@, pos as int), u32_bytes(count, e), words_bytes(v@, e));
        assert(rest(rest(buf@, pos as int), 4) =~= rest(buf@, p as int));
        lemma_u32_round_trip(count, e);
        lemma_words_len(v@, e);
    }
    Ok((v, end))
}

/// Appends a length-prefixed array of groups of `w` words.
pub fn write_dyn_words(out: &mut Vec<u8>, v: &Vec<u32>, w: usize, e: Endian)
    requires
        dyn_words_wf(v@, w as nat),
    ensures
        final(out)@ == old(out)@ + dyn_words_bytes(v@, w as nat, e),
{
    write_u32(out, (v.len() / w) as u32, e);
    write_words(out, v, e);
    assert(final(out)@ =~= old(out)@ + dyn_words_bytes(v@, w as nat, e));
}

/// Reads a length-prefixed array of bytes at `pos`.
pub fn read_dyn_bytes(buf: &[u8], pos: usize, e: Endian) -> (r: Result<(Vec<u8>, usize), Error>)
    requires
        pos <= buf@.len(),
    ensures
        match r {
            Ok((v, end)) => {
                &&& dyn_bytes_wf(v@)
                &&& end == pos + dyn_bytes_bytes(v@, e).len()
                &&& starts_with(rest(buf@, pos as int), dyn_bytes_bytes(v@, e))
            },
            Err(err) => err == Error::TruncatedInput && forall|s: Seq<u8>|
                dyn_bytes_wf(s) ==> !starts_with(
                    rest(buf@, pos as int),
                    #[trigger] dyn_bytes_bytes(s, e),
                ),
        },
{
    let (count, p) = match read_u32(buf, pos, e) {
        Ok(got) => got,
        Err(err) => {
            proof {
                assert forall|s: Seq<u8>| dyn_bytes_wf(s) implies !starts_with(
                    rest(buf@, pos as int),
                    #[trigger] dyn_bytes_bytes(s, e),
                ) by {
                    lemma_u32_round_trip(s.len() as u32, e);
                }
            }
            return Err(err);
        },
    };
    if count as usize > buf.len() - p || count as u64 > (buf.len() - p) as u64 {
        proof {
            assert forall|s: Seq<u8>| dyn_bytes_wf(s) implies !starts_with(
                rest(buf@, pos as int),
                #[trigger] dyn_bytes_bytes(s, e),
            ) by {
                let c = s.len() as u32;
                lemma_u32_round_trip(c, e);
                if starts_with(rest(buf@, pos as int), dyn_bytes_bytes(s, e)) {
                    lemma_starts_with_concat(rest(buf@, pos as int), u32_bytes(c, e), s);
                    lemma_u32_prefix(rest(buf@, pos as int), c, e);
                    lemma_u32_of(rest(buf@, pos as int), e);
                    assert(rest(buf@, pos as int).subrange(0, 4) =~= u32_bytes(count, e));
                    lemma_u32_round_trip(count, e);
                }
            }
        }
        return Err(Error::TruncatedInput);
    }
    let n = count as usize;
    let end = p + n;
    let mut v: Vec<u8> = Vec::new();
    let mut i: usize = 0;
    while i < n
        invariant
            end == p + n,
            p + n <= buf@.len(),
            i <= n,
            v@ == buf@.subrange(p as int, p + i),
        decreases n - i,
    {
        v.push(buf[p + i]);
        i = i + 1;
        proof {
            assert(v@ =~= buf@.subrange(p as int, p + i));
        }
    }
    proof {
        lemma_u32_of(rest(buf@, pos as int), e);
        lemma_u32_round_trip(count, e);
        assert(rest(buf@, pos as int).subrange(0, 4 + n) =~= dyn_bytes_bytes(v@, e));
    }
    Ok((v, end))
}

/// Appends a length-prefixed array of bytes.
pub fn write_dyn_bytes(out: &mut Vec<u8>, v: &Vec<u8>, e: Endian)
    requires
        dyn_bytes_wf(v@),
    ensures
        final(out)@ == old(out)@ + dyn_bytes_bytes(v@, e),
{
    write_u32(out, v.len() as u32, e);
    write_bytes(out, v);
    assert(final(out)@ =~= old(out)@ + dyn_bytes_bytes(v@, e));
}

/// Appends the bytes `v` as they are.
pub fn write_bytes(out: &mut Vec<u8>, v: &Vec<u8>)
    ensures
        final(out)@ == old(out)@ + v@,
{
    let mut i: usize = 0;
    while i < v.len()
        invariant
            i <= v@.len(),
            out@ == old(out)@ + v@.subrange(0, i as int),
        decreases v@.len() - i,
    {
        out.push(v[i]);
        i = i + 1;
        proof {
            assert(out@ =~= old(out)@ + v@.subrange(0, i as int));
        }
    }
    assert(v@.subrange(0, i as int) =~= v@);
}

/// A copy of the bytes of `v` from `from` up to `to`.
pub fn copy_range(v: &[u8], from: usize, to: usize) -> (r: Vec<u8>)
    requires
        from <= to <= v@.len(),
    ensures
        r@ == v@.subrange(from as int, to as int),
{
    let mut r: Vec<u8> = Vec::new();
    let mut i: usize = from;
    while i < to
        invariant
            from <= i <= to,
            to <= v@.len(),
            r@ == v@.subrange(from as int, i as int),
        decreases to - i,
    {
        r.push(v[i]);
        i = i + 1;
        proof {
            assert(r@ =~= v@.subrange(from as int, i as int));
        }
    }
    r
}

/// A copy of the words `v`.
pub fn copy_words(v: &Vec<u32>) -> (r: Vec<u32>)
    ensures
        r@ == v@,
{
    let mut r: Vec<u32> = Vec::new();
    let mut i: usize = 0;
    while i < v.len()
        invariant
            i <= v@.len(),
            r@ == v@.subrange(0, i as int),
        decreases v@.len() - i,
    {
        r.push(v[i]);
        i = i + 1;
        proof {
            assert(r@ =~= v@.subrange(0, i as int));
        }
    }
    assert(r@ =~= v@);
    r
}

/// A copy of the bytes `v`.
pub fn copy_bytes(v: &Vec<u8>) -> (r: Vec<u8>)
    ensures
        r@ == v@,
{
    let mut r: Vec<u8> = Vec::new();
    write_bytes(&mut r, v);
    assert(r@ =~= v@);
    r
}

} // verus!
