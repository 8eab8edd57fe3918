use vstd::prelude::*;

use crate::binary::{
    copy_range, lemma_u32_prefix, lemma_u32_round_trip, read_u32, rest, u32_bytes, u32_of,
    write_bytes, write_u32, Endian,
};
use crate::error::Error;
use crate::lz4::{copy_match, frame_bytes, MAX_COMPRESS_LEN};

verus! {

/// Where the decoder of an LZO1X stream stands between two tokens.
pub ghost enum Phase {
    /// A literal run or a match may come.
    Loop,
    /// A literal run has just been copied: a small token is a three-byte match.
    FirstLit,
    /// The given number of literals follow, then a match.
    Next(nat),
}

/// What one step of the decoder leaves.
pub ghost enum Step {
    /// The end marker was read; the position after it.
    Done(Seq<u8>, int),
    /// The output so far, the position of the next token, and the phase there.
    Go(Seq<u8>, int, Phase),
}

/// A length continued by zero bytes: each zero adds 255, the first other byte adds itself and
/// `base`. Fails with `TruncatedInput` where the input ends first.
pub open spec fn zero_ext(inp: Seq<u8>, pos: int, acc: nat, base: nat) -> Result<(nat, int), Error>
    decreases inp.len() - pos,
{
    if pos < 0 || pos >= inp.len() {
        Err(Error::TruncatedInput)
    } else if inp[pos] == 0 {
        zero_ext(inp, pos + 1, acc + 255, base)
    } else {
        Ok((acc + base + inp[pos] as nat, pos + 1))
    }
}

/// A length field: `low` itself where it is not zero, else a zero-continued length over `base`.
pub open spec fn field_len(inp: Seq<u8>, pos: int, low: nat, base: nat) -> Result<(nat, int), Error> {
    if low == 0 {
        zero_ext(inp, pos, 0, base)
    } else {
        Ok((low, pos))
    }
}

/// Copies `k` literals from `pos`, where the input holds them.
pub open spec fn copy_literals(inp: Seq<u8>, pos: int, out: Seq<u8>, k: nat) -> Result<(Seq<u8>, int), Error> {
    if pos < 0 || pos + k > inp.len() {
        Err(Error::TruncatedInput)
    } else {
        Ok((out + inp.subrange(pos, pos + k), pos + k))
    }
}

/// Copies a run of `k` literals from `pos`: the input must hold them, then the output must stay
/// within the declared size `n`.
pub open spec fn take_literals(inp: Seq<u8>, pos: int, out: Seq<u8>, k: nat, n: nat) -> Result<(Seq<u8>, int), Error> {
    match copy_literals(inp, pos, out, k) {
        Err(err) => Err(err),
        Ok((o, q)) => if o.len() > n {
            Err(Error::SizeMismatch)
        } else {
            Ok((o, q))
        },
    }
}

/// Applies a back-reference of distance `dist` and length `len`, then names the next phase from the
/// literal count `trail` that the match carries.
pub open spec fn apply_match(out: Seq<u8>, n: nat, dist: nat, len: nat, trail: nat, pos: int) -> Result<Step, Error> {
    if dist == 0 || dist > out.len() {
        Err(Error::InvalidBackReference)
    } else if out.len() + len > n {
        Err(Error::SizeMismatch)
    } else {
        Ok(Step::Go(copy_match(out, dist, len), pos, if trail == 0 { Phase::Loop } else { Phase::Next(trail) }))
    }
}

/// The match whose token `t` stands just before `pos`. `first` tells that a literal run came just
/// before, which makes a small token a three-byte match further back.
pub open spec fn match_step(inp: Seq<u8>, pos: int, out: Seq<u8>, n: nat, t: nat, first: bool) -> Result<Step, Error> {
    if t >= 64 {
        if pos < 0 || pos >= inp.len() {
            Err(Error::TruncatedInput)
        } else {
            apply_match(out, n, 1 + (t / 4) % 8 + inp[pos] as nat * 8, t / 32 + 1, t % 4, pos + 1)
        }
    } else if t >= 32 {
        match field_len(inp, pos, t % 32, 31) {
            Err(err) => Err(err),
            Ok((l, p)) => if p + 2 > inp.len() {
                Err(Error::TruncatedInput)
            } else {
                apply_match(out, n, 1 + inp[p] as nat / 4 + inp[p + 1] as nat * 64, l + 2, inp[p] as nat % 4, p + 2)
            },
        }
    } else if t >= 16 {
        match field_len(inp, pos, t % 8, 7) {
            Err(err) => Err(err),
            Ok((l, p)) => if p + 2 > inp.len() {
                Err(Error::TruncatedInput)
            } else {
                let d = inp[p] as nat / 4 + inp[p + 1] as nat * 64 + (t / 8) % 2 * 0x4000;
                if d == 0 {
                    Ok(Step::Done(out, p + 2))
                } else {
                    apply_match(out, n, d + 0x4000, l + 2, inp[p] as nat % 4, p + 2)
                }
            },
        }
    } else if pos < 0 || pos >= inp.len() {
        Err(Error::TruncatedInput)
    } else if first {
        apply_match(out, n, 1 + 0x800 + t / 4 + inp[pos] as nat * 4, 3, t % 4, pos + 1)
    } else {
        apply_match(out, n, 1 + t / 4 + inp[pos] as nat * 4, 2, t % 4, pos + 1)
    }
}

/// One step of the decoder from `pos` in `phase`. Where the input ends inside a token, its length
/// continuation, its literals or its distance, the step fails with `TruncatedInput`; the output is
/// held against the declared size `n` only once the token has been read whole. The literals that a
/// match carries are held against it together with the match that follows them.
pub open spec fn lzo_step(inp: Seq<u8>, pos: int, out: Seq<u8>, n: nat, phase: Phase) -> Result<Step, Error> {
    if out.len() > n {
        Err(Error::SizeMismatch)
    } else {
        match phase {
            Phase::Loop => if pos < 0 || pos >= inp.len() {
                Err(Error::TruncatedInput)
            } else {
                let t = inp[pos] as nat;
                if t >= 16 {
                    match_step(inp, pos + 1, out, n, t, false)
                } else {
                    match field_len(inp, pos + 1, t, 15) {
                        Err(err) => Err(err),
                        Ok((l, p)) => match take_literals(inp, p, out, l + 3, n) {
                            Err(err) => Err(err),
                            Ok((o, q)) => Ok(Step::Go(o, q, Phase::FirstLit)),
                        },
                    }
                }
            },
            Phase::FirstLit => if pos < 0 || pos >= inp.len() {
                Err(Error::TruncatedInput)
            } else {
                let t = inp[pos] as nat;
                match_step(inp, pos + 1, out, n, t, t < 16)
            },
            Phase::Next(k) => match copy_literals(inp, pos, out, k) {
                Err(err) => Err(err),
                Ok((o, q)) => if q < 0 || q >= inp.len() {
                    Err(Error::TruncatedInput)
                } else {
                    match_step(inp, q + 1, o, n, inp[q] as nat, false)
                },
            },
        }
    }
}

/// The decoding of the stream from `pos` in `phase`, after `out` has been produced, for a
/// declared size `n`: it must end with the end marker, at the end of the input, with exactly `n`
/// bytes out.
pub open spec fn lzo_from(inp: Seq<u8>, pos: int, out: Seq<u8>, n: nat, phase: Phase) -> Result<Seq<u8>, Error>
    decreases inp.len() - pos,
{
    match lzo_step(inp, pos, out, n, phase) {
        Err(err) => Err(err),
        Ok(Step::Done(o, p)) => if p != inp.len() || o.len() != n {
            Err(Error::SizeMismatch)
        } else {
            Ok(o)
        },
        Ok(Step::Go(o, p, ph)) => if p <= pos || p > inp.len() {
            Err(Error::TruncatedInput)
        } else {
            lzo_from(inp, p, o, n, ph)
        },
    }
}

/// The decoding of a whole LZO1X stream of declared size `n`. A first byte above 17 starts with a
/// literal run of that many bytes less 17.
#[verifier::opaque]
pub open spec fn spec_lzo_decode(inp: Seq<u8>, n: nat) -> Result<Seq<u8>, Error> {
    if inp.len() > 0 && inp[0] > 17 {
        let t = (inp[0] - 17) as nat;
        if t < 4 {
            lzo_from(inp, 1, Seq::empty(), n, Phase::Next(t))
        } else {
            match take_literals(inp, 1, Seq::empty(), t, n) {
                Err(err) => Err(err),
                Ok((o, q)) => lzo_from(inp, q, o, n, Phase::FirstLit),
            }
        }
    } else {
        lzo_from(inp, 0, Seq::empty(), n, Phase::Loop)
    }
}

/// The phase of the decoder, as the executable code holds it.
#[derive(Clone, Copy)]
enum PhaseExec {
    Loop,
    FirstLit,
    Next(u64),
}

impl View for PhaseExec {
    type V = Phase;

    closed spec fn view(&self) -> Phase {
        match self {
            PhaseExec::Loop => Phase::Loop,
            PhaseExec::FirstLit => Phase::FirstLit,
            PhaseExec::Next(k) => Phase::Next(*k as nat),
        }
    }
}

enum StepExec {
    Done(usize),
    Go(usize, PhaseExec),
}

/// The step that `r` stands for, with `out` the output after it.
spec fn step_matches(r: Result<StepExec, Error>, out: Seq<u8>, s: Result<Step, Error>) -> bool {
    match (r, s) {
        (Ok(StepExec::Done(p)), Ok(Step::Done(o, q))) => p == q && out == o,
        (Ok(StepExec::Go(p, ph)), Ok(Step::Go(o, q, sph))) => p == q && out == o && ph@ == sph,
        (Err(e1), Err(e2)) => e1 == e2,
        _ => false,
    }
}

fn read_zero_ext(inp: &[u8], pos: usize, base: u128) -> (r: Result<(u128, usize), Error>)
    requires
        base <= 31,
    ensures
        match r {
            Ok((l, p)) => zero_ext(inp@, pos as int, 0, base as nat) == Ok::<(nat, int), Error>((l as nat, p as int))
                && l <= 0x1_0000_0000_0000_0000_00 && pos < p <= inp@.len(),
            Err(err) => zero_ext(inp@, pos as int, 0, base as nat) == Err::<(nat, int), Error>(err),
        },
{
    let mut acc: u128 = 0;
    let mut p = pos;
    let len = inp.len();
    loop
        invariant
            len == inp@.len(),
            len <= usize::MAX,
            base <= 31,
            pos <= p,
            p <= pos || p <= len,
            acc <= 255 * (p - pos),
            zero_ext(inp@, p as int, acc as nat, base as nat) == zero_ext(inp@, pos as int, 0, base as nat),
        decreases inp@.len() - p,
    {
        if p >= len {
            return Err(Error::TruncatedInput);
        }
        assert(acc + 255 + 255 + 31 <= 0x1_0000_0000_0000_0000_00) by (nonlinear_arith)
            requires
                acc <= 255 * (p - pos),
                p < len,
                len <= usize::MAX,
                usize::MAX <= 0xffff_ffff_ffff_ffff,
        ;
        let b = inp[p];
        if b == 0 {
            acc = acc + 255;
            p = p + 1;
        } else {
            return Ok((acc + base + b as u128, p + 1));
        }
    }
}

fn read_field_len(inp: &[u8], pos: usize, low: u128, base: u128) -> (r: Result<(u128, usize), Error>)
    requires
        base <= 31,
        low <= 31,
        pos <= inp@.len(),
    ensures
        match r {
            Ok((l, p)) => field_len(inp@, pos as int, low as nat, base as nat) == Ok::<(nat, int), Error>((l as nat, p as int))
                && l <= 0x1_0000_0000_0000_0000_00 && pos <= p <= inp@.len(),
            Err(err) => field_len(inp@, pos as int, low as nat, base as nat) == Err::<(nat, int), Error>(err),
        },
{
    if low == 0 {
        read_zero_ext(inp, pos, base)
    } else {
        Ok((low, pos))
    }
}

fn push_literals(inp: &[u8], pos: usize, out: &mut Vec<u8>, k: u128) -> (r: Result<usize, Error>)
    ensures
        match copy_literals(inp@, pos as int, old(out)@, k as nat) {
            Ok((o, q)) => r == Ok::<usize, Error>(q as usize) && final(out)@ == o && q <= inp@.len(),
            Err(err) => r == Err::<usize, Error>(err) && final(out)@ == old(out)@,
        },
{
    if pos > inp.len() || k > (inp.len() - pos) as u128 {
        return Err(Error::TruncatedInput);
    }
    let k = k as usize;
    let ghost out0 = out@;
    let end = pos + k;
    let mut i: usize = 0;
    while i < k
        invariant
            end == pos + k,
            end <= inp@.len(),
            i <= k,
            out@ == out0 + inp@.subrange(pos as int, pos + i),
        decreases k - i,
    {
        out.push(inp[pos + i]);
        i = i + 1;
        proof {
            assert(out@ =~= out0 + inp@.subrange(pos as int, pos + i));
        }
    }
    Ok(end)
}

fn take_literals_exec(inp: &[u8], pos: usize, out: &mut Vec<u8>, k: u128, n: u32) -> (r: Result<usize, Error>)
    ensures
        match take_literals(inp@, pos as int, old(out)@, k as nat, n as nat) {
            Ok((o, q)) => r == Ok::<usize, Error>(q as usize) && final(out)@ == o && q <= inp@.len(),
            Err(err) => r == Err::<usize, Error>(err),
        },
{
    let q = match push_literals(inp, pos, out, k) {
        Ok(q) => q,
        Err(err) => return Err(err),
    };
    if out.len() > n as usize {
        return Err(Error::SizeMismatch);
    }
    Ok(q)
}

fn do_match(out: &mut Vec<u8>, n: u32, dist: u128, len: u128, trail: u128, pos: usize) -> (r: Result<StepExec, Error>)
    requires
        trail < 4,
        len <= 0x1_0000_0000_0000_0000_00 + 300,
    ensures
        step_matches(r, final(out)@, apply_match(old(out)@, n as nat, dist as nat, len as nat, trail as nat, pos as int)),
        r matches Ok(StepExec::Go(_, PhaseExec::Next(k))) ==> k < 4,
{
    if dist == 0 || dist > out.len() as u128 {
        return Err(Error::InvalidBackReference);
    }
    if out.len() as u128 + len > n as u128 {
        return Err(Error::SizeMismatch);
    }
    let dist = dist as usize;
    let m = len as usize;
    let ghost out2 = out@;
    let mut j: usize = 0;
    while j < m
        invariant
            0 < dist <= out2.len(),
            out2.len() <= out@.len(),
            out@.len() == out2.len() + j,
            out2.len() + m <= n,
            j <= m,
            copy_match(out@, dist as nat, (m - j) as nat) == copy_match(out2, dist as nat, m as nat),
        decreases m - j,
    {
        let x = out[out.len() - dist];
        out.push(x);
        j = j + 1;
    }
    let ph = if trail == 0 {
        PhaseExec::Loop
    } else {
        PhaseExec::Next(trail as u64)
    };
    Ok(StepExec::Go(pos, ph))
}

fn match_step_exec(inp: &[u8], pos: usize, out: &mut Vec<u8>, n: u32, t: u128, first: bool) -> (r: Result<StepExec, Error>)
    requires
        t < 256,
        pos <= inp@.len(),
    ensures
        step_matches(r, final(out)@, match_step(inp@, pos as int, old(out)@, n as nat, t as nat, first)),
        r matches Ok(StepExec::Go(_, PhaseExec::Next(k))) ==> k < 4,
{
    if t >= 64 {
        if pos >= inp.len() {
            return Err(Error::TruncatedInput);
        }
        let dist = 1 + (t / 4) % 8 + inp[pos] as u128 * 8;
        do_match(out, n, dist, t / 32 + 1, t % 4, pos + 1)
    } else if t >= 32 {
        let (l, p) = match read_field_len(inp, pos, t % 32, 31) {
            Ok(got) => got,
            Err(err) => return Err(err),
        };
        if inp.len() - p < 2 {
            return Err(Error::TruncatedInput);
        }
        let b0 = inp[p] as u128;
        let b1 = inp[p + 1] as u128;
        do_match(out, n, 1 + b0 / 4 + b1 * 64, l + 2, b0 % 4, p + 2)
    } else if t >= 16 {
        let (l, p) = match read_field_len(inp, pos, t % 8, 7) {
            Ok(got) => got,
            Err(err) => return Err(err),
        };
        if inp.len() - p < 2 {
            return Err(Error::TruncatedInput);
        }
        let b0 = inp[p] as u128;
        let b1 = inp[p + 1] as u128;
        let d = b0 / 4 + b1 * 64 + (t / 8) % 2 * 0x4000;
        if d == 0 {
            Ok(StepExec::Done(p + 2))
        } else {
            do_match(out, n, d + 0x4000, l + 2, b0 % 4, p + 2)
        }
    } else if pos >= inp.len() {
        Err(Error::TruncatedInput)
    } else if first {
        do_match(out, n, 1 + 0x800 + t / 4 + inp[pos] as u128 * 4, 3, t % 4, pos + 1)
    } else {
        do_match(out, n, 1 + t / 4 + inp[pos] as u128 * 4, 2, t % 4, pos + 1)
    }
}

fn lzo_step_exec(inp: &[u8], pos: usize, out: &mut Vec<u8>, n: u32, phase: PhaseExec) -> (r: Result<StepExec, Error>)
    requires
        pos <= inp@.len(),
        phase matches PhaseExec::Next(k) ==> k < 4,
    ensures
        step_matches(r, final(out)@, lzo_step(inp@, pos as int, old(out)@, n as nat, phase@)),
        r matches Ok(StepExec::Go(_, PhaseExec::Next(k))) ==> k < 4,
        r matches Ok(StepExec::Go(p, _)) ==> p <= inp@.len(),
{
    if out.len() > n as usize {
        return Err(Error::SizeMismatch);
    }
    match phase {
        PhaseExec::Loop => {
            if pos >= inp.len() {
                return Err(Error::TruncatedInput);
            }
            let t = inp[pos] as u128;
            if t >= 16 {
                let r = match_step_exec(inp, pos + 1, out, n, t, false);
                proof { lemma_step_bound(inp@, pos + 1, old(out)@, n as nat, t as nat, false); }
                r
            } else {
                let (l, p) = match read_field_len(inp, pos + 1, t, 15) {
                    Ok(got) => got,
                    Err(err) => return Err(err),
                };
                match take_literals_exec(inp, p, out, l + 3, n) {
                    Ok(q) => Ok(StepExec::Go(q, PhaseExec::FirstLit)),
                    Err(err) => Err(err),
                }
            }
        },
        PhaseExec::FirstLit => {
            if pos >= inp.len() {
                return Err(Error::TruncatedInput);
            }
            let t = inp[pos] as u128;
            let r = match_step_exec(inp, pos + 1, out, n, t, t < 16);
            proof { lemma_step_bound(inp@, pos + 1, old(out)@, n as nat, t as nat, t < 16); }
            r
        },
        PhaseExec::Next(k) => {
            let q = match push_literals(inp, pos, out, k as u128) {
                Ok(q) => q,
                Err(err) => return Err(err),
            };
            if q >= inp.len() {
                return Err(Error::TruncatedInput);
            }
            let t = inp[q] as u128;
            let ghost mid = out@;
            let r = match_step_exec(inp, q + 1, out, n, t, false);
            proof { lemma_step_bound(inp@, q + 1, mid, n as nat, t as nat, false); }
            r
        },
    }
}

proof fn lemma_step_bound(inp: Seq<u8>, pos: int, out: Seq<u8>, n: nat, t: nat, first: bool)
    requires
        0 <= pos <= inp.len(),
    ensures
        match_step(inp, pos, out, n, t, first) matches Ok(Step::Go(_, p, _)) ==> p <= inp.len(),
{
    if 16 <= t < 64 {
        let low = if t >= 32 { t % 32 } else { t % 8 };
        let base: nat = if t >= 32 { 31 } else { 7 };
        if low == 0 {
            lemma_zero_ext_bound(inp, pos, 0, base);
        }
    }
}

proof fn lemma_zero_ext_bound(inp: Seq<u8>, pos: int, acc: nat, base: nat)
    ensures
        zero_ext(inp, pos, acc, base) matches Ok((_, p)) ==> pos < p <= inp.len(),
    decreases inp.len() - pos,
{
    if 0 <= pos < inp.len() && inp[pos] == 0 {
        lemma_zero_ext_bound(inp, pos + 1, acc + 255, base);
    }
}

/// Decompresses an LZO1X stream whose declared decompressed size is `n`. Fails with
/// `TruncatedInput` where a token, a length, literals or an offset run past the input, with
/// `InvalidBackReference` where a match reaches before the start of the output, and with
/// `SizeMismatch` where the output would not be exactly `n` bytes or input is left after the end
/// marker.
pub fn lzo_decode(inp: &[u8], n: u32) -> (r: Result<Vec<u8>, Error>)
    ensures
        match r {
            Ok(v) => spec_lzo_decode(inp@, n as nat) == Ok::<Seq<u8>, Error>(v@),
            Err(err) => spec_lzo_decode(inp@, n as nat) == Err::<Seq<u8>, Error>(err),
        },
{
    proof {
        reveal(spec_lzo_decode);
    }
    let mut out: Vec<u8> = Vec::new();
    let mut pos: usize = 0;
    let mut phase = PhaseExec::Loop;
    if inp.len() > 0 && inp[0] > 17 {
        let t = (inp[0] - 17) as u64;
        if t < 4 {
            pos = 1;
            phase = PhaseExec::Next(t);
        } else {
            match take_literals_exec(inp, 1, &mut out, t as u128, n) {
                Ok(q) => {
                    pos = q;
                    phase = PhaseExec::FirstLit;
                },
                Err(err) => return Err(err),
            }
        }
    }
    loop
        invariant
            pos <= inp@.len(),
            phase matches PhaseExec::Next(k) ==> k < 4,
            lzo_from(inp@, pos as int, out@, n as nat, phase@) == spec_lzo_decode(inp@, n as nat),
        decreases inp@.len() - pos,
    {
        let ghost before = out@;
        match lzo_step_exec(inp, pos, &mut out, n, phase) {
            Err(err) => return Err(err),
            Ok(StepExec::Done(p)) => {
                if p != inp.len() || out.len() != n as usize {
                    return Err(Error::SizeMismatch);
                }
                return Ok(out);
            },
            Ok(StepExec::Go(p, ph)) => {
                if p <= pos || p > inp.len() {
                    return Err(Error::TruncatedInput);
                }
                pos = p;
                phase = ph;
            },
        }
    }
}

/// The bytes that write a zero-continued length of `m` over its base: a zero for each 255, then
/// the rest, which is never zero.
pub open spec fn zero_ext_bytes(m: nat) -> Seq<u8>
    decreases m,
{
    if m <= 255 {
        seq![m as u8]
    } else {
        seq![0u8] + zero_ext_bytes((m - 255) as nat)
    }
}

/// The end marker: a far match of distance zero.
pub open spec fn end_marker() -> Seq<u8> {
    seq![0x11u8, 0, 0]
}

/// A stream that holds `x` as one literal run, then the end marker.
pub open spec fn literal_stream(x: Seq<u8>) -> Seq<u8> {
    if x.len() == 0 {
        end_marker()
    } else if x.len() <= 238 {
        seq![(x.len() + 17) as u8] + x + end_marker()
    } else {
        seq![0u8] + zero_ext_bytes((x.len() - 18) as nat) + x + end_marker()
    }
}

pub proof fn lemma_zero_ext_bytes(t: Seq<u8>, p: int, acc: nat, m: nat)
    requires
        m >= 1,
        0 <= p,
        p + zero_ext_bytes(m).len() <= t.len(),
        t.subrange(p, p + zero_ext_bytes(m).len()) == zero_ext_bytes(m),
    ensures
        zero_ext(t, p, acc, 15) == Ok::<(nat, int), Error>((acc + 15 + m, p + zero_ext_bytes(m).len())),
        zero_ext_bytes(m).len() == (m - 1) / 255 + 1,
    decreases m,
{
    assert(t[p] == t.subrange(p, p + zero_ext_bytes(m).len())[0]);
    if m > 255 {
        let z = zero_ext_bytes((m - 255) as nat);
        assert(t.subrange(p + 1, p + 1 + z.len() as int) =~= t.subrange(p, p + zero_ext_bytes(m).len()).subrange(1, 1 + z.len() as int));
        assert(zero_ext_bytes(m).subrange(1, 1 + z.len() as int) =~= z);
        lemma_zero_ext_bytes(t, p + 1, acc + 255, (m - 255) as nat);
    }
}

pub proof fn lemma_zero_ext_bytes_len(m: nat)
    requires
        m >= 1,
    ensures
        zero_ext_bytes(m).len() == (m - 1) / 255 + 1,
    decreases m,
{
    if m > 255 {
        lemma_zero_ext_bytes_len((m - 255) as nat);
    }
}

/// The end marker, where a match may come, ends the stream.
proof fn lemma_end_marker(inp: Seq<u8>, p: int, out: Seq<u8>, n: nat, phase: Phase)
    requires
        0 <= p,
        p + 3 == inp.len(),
        inp.subrange(p, p + 3) == end_marker(),
        out.len() == n,
        phase is Loop || phase is FirstLit,
    ensures
        lzo_from(inp, p, out, n, phase) == Ok::<Seq<u8>, Error>(out),
{
    assert(inp[p] == end_marker()[0]);
    assert(inp[p + 1] == end_marker()[1]);
    assert(inp[p + 2] == end_marker()[2]);
}

proof fn lemma_short_stream(x: Seq<u8>)
    requires
        1 <= x.len() < 4,
    ensures
        spec_lzo_decode(literal_stream(x), x.len()) == Ok::<Seq<u8>, Error>(x),
{
    reveal(spec_lzo_decode);
    let s = literal_stream(x);
    let n = x.len();
    assert(s[0] == (n + 17) as u8);
    assert(s.subrange(1, 1 + n as int) =~= x);
    assert(Seq::<u8>::empty() + x =~= x);
    assert(s[1 + n as int] == 0x11u8);
    assert(s[2 + n as int] == 0u8);
    assert(s[3 + n as int] == 0u8);
    assert(copy_literals(s, 1, Seq::empty(), n) == Ok::<(Seq<u8>, int), Error>((x, 1 + n as int)));
    assert(match_step(s, 2 + n as int, x, n, 0x11, false) == Ok::<Step, Error>(Step::Done(x, 4 + n as int)));
    assert(lzo_step(s, 1, Seq::empty(), n, Phase::Next(n)) == Ok::<Step, Error>(Step::Done(x, 4 + n as int)));
}

proof fn lemma_medium_stream(x: Seq<u8>)
    requires
        4 <= x.len() <= 238,
    ensures
        spec_lzo_decode(literal_stream(x), x.len()) == Ok::<Seq<u8>, Error>(x),
{
    reveal(spec_lzo_decode);
    let s = literal_stream(x);
    let n = x.len();
    assert(s[0] == (n + 17) as u8);
    assert(s.subrange(1, 1 + n as int) =~= x);
    assert(Seq::<u8>::empty() + x =~= x);
    assert(s.subrange(1 + n as int, 4 + n as int) =~= end_marker());
    lemma_end_marker(s, 1 + n as int, x, n, Phase::FirstLit);
}

#[verifier::rlimit(100)]
proof fn lemma_long_stream(x: Seq<u8>)
    requires
        238 < x.len() <= u32::MAX,
    ensures
        spec_lzo_decode(literal_stream(x), x.len()) == Ok::<Seq<u8>, Error>(x),
{
    reveal(spec_lzo_decode);
    let s = literal_stream(x);
    let n = x.len();
    let m = (n - 18) as nat;
    let z = zero_ext_bytes(m);
    assert(s[0] == 0u8);
    assert(s.subrange(1, 1 + z.len() as int) =~= z);
    lemma_zero_ext_bytes(s, 1, 0, m);
    let p = 1 + z.len() as int;
    assert(s.subrange(p, p + n) =~= x);
    assert(Seq::<u8>::empty() + x =~= x);
    assert(s.subrange(p + n, p + n + 3) =~= end_marker());
    assert(field_len(s, 1, 0, 15) == Ok::<(nat, int), Error>(((n - 3) as nat, p)));
    assert(take_literals(s, p, Seq::empty(), n, n) == Ok::<(Seq<u8>, int), Error>((x, p + n)));
    assert(lzo_step(s, 0, Seq::empty(), n, Phase::Loop) == Ok::<Step, Error>(Step::Go(x, p + n, Phase::FirstLit)));
    lemma_end_marker(s, p + n, x, n, Phase::FirstLit);
}

/// A literal stream decodes back to what it holds.
pub proof fn lemma_literal_stream(x: Seq<u8>)
    requires
        x.len() <= u32::MAX,
    ensures
        spec_lzo_decode(literal_stream(x), x.len()) == Ok::<Seq<u8>, Error>(x),
{
    if x.len() == 0 {
        reveal(spec_lzo_decode);
        let s = literal_stream(x);
        assert(s.subrange(0, 3) =~= end_marker());
        lemma_end_marker(s, 0, Seq::empty(), 0, Phase::Loop);
        assert(x =~= Seq::<u8>::empty());
    } else if x.len() < 4 {
        lemma_short_stream(x);
    } else if x.len() <= 238 {
        lemma_medium_stream(x);
    } else {
        lemma_long_stream(x);
    }
}

/// The decompression of a framed LZO1X stream: the declared decompressed size, the stream's size,
/// then the stream, which must be exactly as long as declared.
pub open spec fn spec_lzo_decompress(data: Seq<u8>, e: Endian) -> Result<Seq<u8>, Error> {
    if data.len() < 8 {
        Err(Error::TruncatedInput)
    } else {
        let n = u32_of(data, e);
        let c = u32_of(data.skip(4), e);
        if data.len() < 8 + c {
            Err(Error::TruncatedInput)
        } else if data.len() > 8 + c {
            Err(Error::SizeMismatch)
        } else {
            spec_lzo_decode(data.skip(8), n as nat)
        }
    }
}

/// Decompresses a framed LZO1X stream in byte order `e`.
pub fn lzo_decompress(data: &[u8], e: Endian) -> (r: Result<Vec<u8>, Error>)
    ensures
        match r {
            Ok(v) => spec_lzo_decompress(data@, e) == Ok::<Seq<u8>, Error>(v@),
            Err(err) => spec_lzo_decompress(data@, e) == Err::<Seq<u8>, Error>(err),
        },
{
    if data.len() < 8 {
        return Err(Error::TruncatedInput);
    }
    let (n, p) = match read_u32(data, 0, e) {
        Ok(got) => got,
        Err(err) => return Err(err),
    };
    let (c, p) = match read_u32(data, p, e) {
        Ok(got) => got,
        Err(err) => return Err(err),
    };
    proof {
        assert(rest(data@, 0) =~= data@);
        lemma_u32_prefix(data@, n, e);
        assert(rest(data@, 4) =~= data@.skip(4));
        lemma_u32_prefix(data@.skip(4), c, e);
    }
    if c as usize > data.len() - 8 || c as u64 > (data.len() - 8) as u64 {
        return Err(Error::TruncatedInput);
    }
    if (c as usize) < data.len() - 8 {
        return Err(Error::SizeMismatch);
    }
    let stream = copy_range(data, 8, data.len());
    proof {
        assert(stream@ =~= data@.skip(8));
    }
    lzo_decode(stream.as_slice(), n)
}

pub proof fn lemma_literal_stream_len(x: Seq<u8>)
    ensures
        x.len() == 0 ==> literal_stream(x).len() == 3,
        1 <= x.len() <= 238 ==> literal_stream(x).len() == x.len() + 4,
        x.len() > 238 ==> literal_stream(x).len() == 1 + (x.len() - 19) / 255 + 1 + x.len() + 3,
{
    if x.len() > 238 {
        lemma_zero_ext_bytes_len((x.len() - 18) as nat);
    }
}

fn write_literal_stream(out: &mut Vec<u8>, data: &Vec<u8>)
    ensures
        final(out)@ == old(out)@ + literal_stream(data@),
{
    let n = data.len();
    if n == 0 {
    } else if n <= 238 {
        out.push((n + 17) as u8);
        write_bytes(out, data);
        assert(out@ =~= old(out)@ + seq![(n + 17) as u8] + data@);
    } else {
        out.push(0u8);
        let mut m: usize = n - 18;
        let ghost mid = out@;
        while m > 255
            invariant
                m >= 1,
                out@ + zero_ext_bytes(m as nat) == mid + zero_ext_bytes((n - 18) as nat),
            decreases m,
        {
            let ghost before = out@;
            out.push(0u8);
            proof {
                assert(before + zero_ext_bytes(m as nat) =~= out@ + zero_ext_bytes((m - 255) as nat));
            }
            m = m - 255;
        }
        out.push(m as u8);
        proof {
            assert(out@ =~= mid + zero_ext_bytes((n - 18) as nat));
        }
        write_bytes(out, data);
        assert(out@ =~= old(out)@ + seq![0u8] + zero_ext_bytes((n - 18) as nat) + data@);
    }
    let ghost body = out@;
    out.push(0x11u8);
    out.push(0u8);
    out.push(0u8);
    assert(out@ =~= body + end_marker());
    assert(out@ =~= old(out)@ + literal_stream(data@));
}

/// Frames `data` as an LZO1X stream in byte order `e`, appended to `out`. The stream holds the
/// data as one literal run and the end marker, with no matches: it is a few bytes longer than the
/// data, and any decoder of the format reads it back.
pub fn lzo_compress(data: &Vec<u8>, out: &mut Vec<u8>, e: Endian)
    requires
        data@.len() <= MAX_COMPRESS_LEN,
    ensures
        final(out)@ == old(out)@ + frame_bytes(data@.len() as u32, literal_stream(data@), e),
{
    let n = data.len();
    proof {
        lemma_literal_stream_len(data@);
    }
    let stream_len: usize = if n == 0 {
        3
    } else if n <= 238 {
        n + 4
    } else {
        1 + ((n - 18) - 1) / 255 + 1 + n + 3
    };
    write_u32(out, n as u32, e);
    write_u32(out, stream_len as u32, e);
    write_literal_stream(out, data);
    assert(final(out)@ =~= old(out)@ + frame_bytes(n as u32, literal_stream(data@), e));
}

/// Round trip: decompressing what compression wrote gives the input back, in either byte order,
/// the empty input included.
pub proof fn lemma_lzo_round_trip(x: Seq<u8>, e: Endian)
    requires
        x.len() <= MAX_COMPRESS_LEN,
    ensures
        spec_lzo_decompress(frame_bytes(x.len() as u32, literal_stream(x), e), e) == Ok::<Seq<u8>, Error>(x),
{
    let b = literal_stream(x);
    let f = frame_bytes(x.len() as u32, b, e);
    if x.len() > 238 {
        lemma_zero_ext_bytes_len((x.len() - 18) as nat);
    }
    lemma_u32_round_trip(x.len() as u32, e);
    lemma_u32_round_trip(b.len() as u32, e);
    assert(f.subrange(0, 4) =~= u32_bytes(x.len() as u32, e));
    lemma_u32_prefix(f, x.len() as u32, e);
    assert(f.skip(4).subrange(0, 4) =~= u32_bytes(b.len() as u32, e));
    lemma_u32_prefix(f.skip(4), b.len() as u32, e);
    assert(f.skip(8) =~= b);
    lemma_literal_stream(x);
}

proof fn lemma_lzo_from_len(inp: Seq<u8>, pos: int, out: Seq<u8>, n: nat, phase: Phase)
    ensures
        lzo_from(inp, pos, out, n, phase) matches Ok(v) ==> v.len() == n,
    decreases inp.len() - pos,
{
    if let Ok(Step::Go(o, p, ph)) = lzo_step(inp, pos, out, n, phase) {
        if pos < p <= inp.len() {
            lemma_lzo_from_len(inp, p, o, n, ph);
        }
    }
}

/// Size contract: a stream decodes only to exactly the size declared for it, never a truncated or
/// padded output.
pub proof fn lemma_lzo_size_contract(inp: Seq<u8>, n: nat)
    ensures
        spec_lzo_decode(inp, n) matches Ok(v) ==> v.len() == n,
{
    reveal(spec_lzo_decode);
    if inp.len() > 0 && inp[0] > 17 {
        let t = (inp[0] - 17) as nat;
        if t < 4 {
            lemma_lzo_from_len(inp, 1, Seq::empty(), n, Phase::Next(t));
        } else if let Ok((o, q)) = take_literals(inp, 1, Seq::empty(), t, n) {
            lemma_lzo_from_len(inp, q, o, n, Phase::FirstLit);
        }
    } else {
        lemma_lzo_from_len(inp, 0, Seq::empty(), n, Phase::Loop);
    }
}

proof fn lemma_match_step_other_size(inp: Seq<u8>, pos: int, out: Seq<u8>, m: nat, n: nat, t: nat, first: bool)
    requires
        match_step(inp, pos, out, m, t, first) is Ok,
    ensures
        match_step(inp, pos, out, n, t, first) == match_step(inp, pos, out, m, t, first) || match_step(
            inp,
            pos,
            out,
            n,
            t,
            first,
        ) == Err::<Step, Error>(Error::SizeMismatch),
{
}

proof fn lemma_lzo_step_other_size(inp: Seq<u8>, pos: int, out: Seq<u8>, m: nat, n: nat, phase: Phase)
    requires
        lzo_step(inp, pos, out, m, phase) is Ok,
    ensures
        lzo_step(inp, pos, out, n, phase) == lzo_step(inp, pos, out, m, phase) || lzo_step(
            inp,
            pos,
            out,
            n,
            phase,
        ) == Err::<Step, Error>(Error::SizeMismatch),
{
    if out.len() <= n {
        match phase {
            Phase::Loop => {
                let t = inp[pos] as nat;
                if t >= 16 {
                    lemma_match_step_other_size(inp, pos + 1, out, m, n, t, false);
                }
            },
            Phase::FirstLit => {
                let t = inp[pos] as nat;
                lemma_match_step_other_size(inp, pos + 1, out, m, n, t, t < 16);
            },
            Phase::Next(k) => {
                if let Ok((o, q)) = copy_literals(inp, pos, out, k) {
                    lemma_match_step_other_size(inp, q + 1, o, m, n, inp[q] as nat, false);
                }
            },
        }
    }
}

/// Where the stream from `pos` decodes in full to a size `m`, it fails under any other declared
/// size `n`, and fails with `SizeMismatch`.
pub proof fn lemma_lzo_from_other_size(inp: Seq<u8>, pos: int, out: Seq<u8>, m: nat, n: nat, phase: Phase)
    requires
        lzo_from(inp, pos, out, m, phase) is Ok,
        m != n,
    ensures
        lzo_from(inp, pos, out, n, phase) == Err::<Seq<u8>, Error>(Error::SizeMismatch),
    decreases inp.len() - pos,
{
    lemma_lzo_step_other_size(inp, pos, out, m, n, phase);
    if let Ok(Step::Go(o, p, ph)) = lzo_step(inp, pos, out, n, phase) {
        if pos < p <= inp.len() {
            lemma_lzo_from_other_size(inp, p, o, m, n, ph);
        }
    }
}

/// A stream that decodes in full to a size `m` fails with `SizeMismatch` under any other
/// declared size.
pub proof fn lemma_lzo_other_size(inp: Seq<u8>, m: nat, n: nat)
    requires
        spec_lzo_decode(inp, m) is Ok,
        m != n,
    ensures
        spec_lzo_decode(inp, n) == Err::<Seq<u8>, Error>(Error::SizeMismatch),
{
    reveal(spec_lzo_decode);
    if inp.len() > 0 && inp[0] > 17 {
        let t = (inp[0] - 17) as nat;
        if t < 4 {
            lemma_lzo_from_other_size(inp, 1, Seq::empty(), m, n, Phase::Next(t));
        } else if let Ok((o, q)) = take_literals(inp, 1, Seq::empty(), t, n) {
            lemma_lzo_from_other_size(inp, q, o, m, n, Phase::FirstLit);
        }
    } else {
        lemma_lzo_from_other_size(inp, 0, Seq::empty(), m, n, Phase::Loop);
    }
}

/// Size contract, by kind: a frame whose stream decodes in full to a size other than the one its
/// header declares fails with `SizeMismatch`, never giving a truncated or padded output.
pub proof fn lemma_lzo_size_mismatch(data: Seq<u8>, e: Endian, m: nat)
    requires
        data.len() == 8 + u32_of(data.skip(4), e),
        spec_lzo_decode(data.skip(8), m) is Ok,
        m != u32_of(data, e),
    ensures
        spec_lzo_decompress(data, e) == Err::<Seq<u8>, Error>(Error::SizeMismatch),
{
    lemma_lzo_other_size(data.skip(8), m, u32_of(data, e) as nat);
}

/// Re-compression: a frame that compression wrote decompresses to data that compresses back to
/// that very frame.
pub proof fn lemma_lzo_recompress(x: Seq<u8>, e: Endian)
    requires
        x.len() <= MAX_COMPRESS_LEN,
    ensures
        ({
            let c = frame_bytes(x.len() as u32, literal_stream(x), e);
            spec_lzo_decompress(c, e) matches Ok(y) && frame_bytes(y.len() as u32, literal_stream(y), e)
                == c
        }),
{
    lemma_lzo_round_trip(x, e);
}

/// Byte-order independence: the frames written in each byte order differ only in their headers,
/// and both decompress to the same data.
pub proof fn lemma_lzo_byte_order(x: Seq<u8>)
    requires
        x.len() <= MAX_COMPRESS_LEN,
    ensures
        spec_lzo_decompress(frame_bytes(x.len() as u32, literal_stream(x), Endian::Little), Endian::Little)
            == spec_lzo_decompress(frame_bytes(x.len() as u32, literal_stream(x), Endian::Big), Endian::Big),
        frame_bytes(x.len() as u32, literal_stream(x), Endian::Little).skip(8) == frame_bytes(
            x.len() as u32,
            literal_stream(x),
            Endian::Big,
        ).skip(8),
{
    lemma_lzo_round_trip(x, Endian::Little);
    lemma_lzo_round_trip(x, Endian::Big);
    lemma_u32_round_trip(x.len() as u32, Endian::Little);
    lemma_u32_round_trip(x.len() as u32, Endian::Big);
    lemma_u32_round_trip(literal_stream(x).len() as u32, Endian::Little);
    lemma_u32_round_trip(literal_stream(x).len() as u32, Endian::Big);
    assert(frame_bytes(x.len() as u32, literal_stream(x), Endian::Little).skip(8) =~= literal_stream(x));
    assert(frame_bytes(x.len() as u32, literal_stream(x), Endian::Big).skip(8) =~= literal_stream(x));
}

/// A zero-continued length fails only where the input ends inside it.
pub proof fn lemma_zero_ext_truncated(inp: Seq<u8>, pos: int, acc: nat, base: nat)
    ensures
        zero_ext(inp, pos, acc, base) is Err ==> zero_ext(inp, pos, acc, base) == Err::<
            (nat, int),
            Error,
        >(Error::TruncatedInput),
    decreases inp.len() - pos,
{
    if 0 <= pos < inp.len() && inp[pos] == 0 {
        lemma_zero_ext_truncated(inp, pos + 1, acc + 255, base);
    }
}

/// The match token `t`, whose bytes after the token start at `pos`, runs past the input: its
/// length continuation or its distance is cut short.
pub open spec fn match_cut(inp: Seq<u8>, pos: int, t: nat) -> bool {
    if 16 <= t < 64 {
        let low = if t >= 32 { t % 32 } else { t % 8 };
        let base: nat = if t >= 32 { 31 } else { 7 };
        match field_len(inp, pos, low, base) {
            Err(_) => true,
            Ok((_, p)) => p + 2 > inp.len(),
        }
    } else {
        pos >= inp.len()
    }
}

/// Truncation: a match token cut short fails with `TruncatedInput`, whatever the output so far
/// and the declared size.
pub proof fn lemma_match_truncated(inp: Seq<u8>, pos: int, out: Seq<u8>, n: nat, t: nat, first: bool)
    requires
        0 <= pos,
        match_cut(inp, pos, t),
    ensures
        match_step(inp, pos, out, n, t, first) == Err::<Step, Error>(Error::TruncatedInput),
{
    lemma_zero_ext_truncated(inp, pos, 0, if t >= 32 { 31 } else { 7 });
}

/// Truncation: a literal run (a token below 16 where a literal run may come) whose length
/// continuation or literals run past the input fails with `TruncatedInput`, whatever the output so
/// far and the declared size.
pub proof fn lemma_literal_run_truncated(inp: Seq<u8>, pos: int, out: Seq<u8>, n: nat)
    requires
        0 <= pos < inp.len(),
        inp[pos] < 16,
        out.len() <= n,
        match field_len(inp, pos + 1, inp[pos] as nat, 15) {
            Err(_) => true,
            Ok((l, p)) => p + l + 3 > inp.len(),
        },
    ensures
        lzo_step(inp, pos, out, n, Phase::Loop) == Err::<Step, Error>(Error::TruncatedInput),
{
    lemma_zero_ext_truncated(inp, pos + 1, 0, 15);
}

} // verus!
