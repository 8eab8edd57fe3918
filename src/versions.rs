use vstd::prelude::*;
use vstd::string::{StrSliceExecFns, StringExecFns};

verus! {

/// The dialect of an archive, read from the version signature in its header.
#[derive(Debug)]
pub enum Version {
    /// `v{0}.{1:02}.{2:02}.{3:02} - Asobo Studio - Internal Cross Technology`
    Asobo(u32, u32, u32, u32),
    /// `v{0}.{1:02} - Asobo Studio - Internal Cross Technology`
    AsoboLegacy(u32, u32),
    /// `TotemTech Data v{0}.{1} (c) 1999-2002 Kalisto Entertainment - All right reserved`
    Kalisto(u32, u32),
    /// `Bigfile Data v{0}.{1} `, with the trailing space.
    BlackSheep(u32, u32),
    /// `Opal {}.{} BigFile | Data Version v{}.{} | CVT {} | CVANIM {} | CVMESH {} | CVSHADER {} |`
    Ubisoft {
        opal_version: (u32, u32),
        data_version: (u32, u32),
        cvt: u32,
        cvanim: u32,
        cvmesh: u32,
        cvshader: u32,
    },
    /// A signature that none of the known patterns matches, kept as it was.
    Other(String),
}

/// One piece of a signature pattern: text that must stand there, or a decimal number.
pub enum Piece {
    Lit(&'static str),
    Num,
}

pub ghost enum PieceView {
    Lit(Seq<char>),
    Num,
}

impl View for Piece {
    type V = PieceView;

    open spec fn view(&self) -> PieceView {
        match self {
            Piece::Lit(s) => PieceView::Lit(s@),
            Piece::Num => PieceView::Num,
        }
    }
}

pub open spec fn piece_views(p: Seq<Piece>) -> Seq<PieceView> {
    p.map_values(|x: Piece| x@)
}

pub open spec fn is_digit(c: char) -> bool {
    '0' <= c && c <= '9'
}

/// How many decimal digits begin `s`.
pub open spec fn digit_run(s: Seq<char>) -> nat
    decreases s.len(),
{
    if s.len() > 0 && is_digit(s[0]) {
        1 + digit_run(s.drop_first())
    } else {
        0
    }
}

/// The number that the decimal digits `d` write.
pub open spec fn decimal_value(d: Seq<char>) -> nat
    decreases d.len(),
{
    if d.len() == 0 {
        0
    } else {
        decimal_value(d.drop_last()) * 10 + (d.last() as nat - '0' as nat) as nat
    }
}

/// The numbers read from `s` by the pattern `pat`, where the whole of `s` matches it: text pieces
/// must stand as they are; a number piece takes every decimal digit that follows (at least one)
/// and must fit in 32 bits.
pub open spec fn match_pattern(s: Seq<char>, pat: Seq<PieceView>) -> Option<Seq<u32>>
    decreases pat.len(),
{
    if pat.len() == 0 {
        if s.len() == 0 {
            Some(Seq::empty())
        } else {
            None
        }
    } else {
        match pat[0] {
            PieceView::Lit(l) => if l.len() <= s.len() && s.subrange(0, l.len() as int) == l {
                match_pattern(s.skip(l.len() as int), pat.drop_first())
            } else {
                None
            },
            PieceView::Num => {
                let n = digit_run(s);
                let v = decimal_value(s.take(n as int));
                if n == 0 || v > u32::MAX {
                    None
                } else {
                    match match_pattern(s.skip(n as int), pat.drop_first()) {
                        Some(rest) => Some(seq![v as u32] + rest),
                        None => None,
                    }
                }
            },
        }
    }
}

pub proof fn lemma_digit_run(t: Seq<char>, m: nat)
    requires
        m <= t.len(),
        forall|i: int| 0 <= i < m ==> is_digit(#[trigger] t[i]),
        m == t.len() || !is_digit(t[m as int]),
    ensures
        digit_run(t) == m,
    decreases m,
{
    if m > 0 {
        let t1 = t.drop_first();
        assert forall|i: int| 0 <= i < m - 1 implies is_digit(#[trigger] t1[i]) by {
            assert(t1[i] == t[i + 1]);
        }
        if m < t.len() {
            assert(t1[m - 1] == t[m as int]);
        }
        lemma_digit_run(t1, (m - 1) as nat);
    }
}

/// Whether the text `l` stands in `s` at `pos`.
fn lit_at(s: &str, len: usize, pos: usize, l: &str) -> (r: bool)
    requires
        len == s@.len(),
        pos <= len,
    ensures
        r == (l@.len() <= len - pos && s@.skip(pos as int).subrange(0, l@.len() as int) == l@),
{
    let n = l.unicode_len();
    if n > len - pos {
        return false;
    }
    let mut i: usize = 0;
    while i < n
        invariant
            n == l@.len(),
            pos + n <= len,
            len == s@.len(),
            i <= n,
            s@.skip(pos as int).subrange(0, i as int) == l@.subrange(0, i as int),
        decreases n - i,
    {
        if s.get_char(pos + i) != l.get_char(i) {
            proof {
                assert(s@.skip(pos as int).subrange(0, n as int)[i as int] == s@[pos + i]);
            }
            return false;
        }
        i = i + 1;
        proof {
            assert(s@.skip(pos as int).subrange(0, i as int) =~= l@.subrange(0, i as int));
        }
    }
    proof {
        assert(l@.subrange(0, n as int) =~= l@);
    }
    true
}

/// The decimal digits of `s` from `pos`: how many there are, and their value where it fits in
/// 32 bits.
fn scan_number(s: &str, len: usize, pos: usize) -> (r: (usize, Option<u32>))
    requires
        len == s@.len(),
        pos <= len,
    ensures
        r.0 == digit_run(s@.skip(pos as int)),
        pos + r.0 <= len,
        match r.1 {
            Some(v) => v == decimal_value(s@.skip(pos as int).take(r.0 as int)),
            None => decimal_value(s@.skip(pos as int).take(r.0 as int)) > u32::MAX,
        },
{
    let mut j: usize = pos;
    let mut acc: u64 = 0;
    let mut fits = true;
    loop
        invariant
            len == s@.len(),
            pos <= j <= len,
            forall|i: int| pos <= i < j ==> is_digit(#[trigger] s@[i]),
            fits ==> acc == decimal_value(s@.subrange(pos as int, j as int)) && acc <= u32::MAX,
            !fits ==> decimal_value(s@.subrange(pos as int, j as int)) > u32::MAX,
        ensures
            pos <= j <= len,
            forall|i: int| pos <= i < j ==> is_digit(#[trigger] s@[i]),
            j == len || !is_digit(s@[j as int]),
            fits ==> acc == decimal_value(s@.subrange(pos as int, j as int)) && acc <= u32::MAX,
            !fits ==> decimal_value(s@.subrange(pos as int, j as int)) > u32::MAX,
        decreases len - j,
    {
        if j >= len {
            break;
        }
        let c = s.get_char(j);
        if !('0' <= c && c <= '9') {
            break;
        }
        let d = (c as u32 - '0' as u32) as u64;
        proof {
            assert(s@.subrange(pos as int, j + 1).drop_last() =~= s@.subrange(pos as int, j as int));
        }
        if fits {
            acc = acc * 10 + d;
            if acc > 0xffff_ffff {
                fits = false;
            }
        }
        j = j + 1;
    }
    proof {
        let t = s@.skip(pos as int);
        assert forall|i: int| 0 <= i < j - pos implies is_digit(#[trigger] t[i]) by {
            assert(t[i] == s@[pos + i]);
        }
        if j < len {
            assert(t[j - pos] == s@[j as int]);
        }
        lemma_digit_run(t, (j - pos) as nat);
        assert(t.take(j - pos) =~= s@.subrange(pos as int, j as int));
    }
    if fits {
        (j - pos, Some(acc as u32))
    } else {
        (j - pos, None)
    }
}

/// The numbers read by the pieces of `pat` from the `k`-th on, out of `s` from `pos` on.
fn match_from(s: &str, len: usize, pat: &Vec<Piece>, k: usize, pos: usize) -> (r: Option<Vec<u32>>)
    requires
        len == s@.len(),
        pos <= len,
        k <= pat@.len(),
    ensures
        match r {
            Some(v) => match_pattern(s@.skip(pos as int), piece_views(pat@).skip(k as int)) == Some(
                v@,
            ),
            None => match_pattern(s@.skip(pos as int), piece_views(pat@).skip(k as int)) is None,
        },
    decreases pat@.len() - k,
{
    let ghost t = s@.skip(pos as int);
    let ghost ps = piece_views(pat@).skip(k as int);
    if k == pat.len() {
        if pos == len {
            return Some(Vec::new());
        } else {
            return None;
        }
    }
    proof {
        assert(ps[0] == pat@[k as int]@);
        assert(ps.drop_first() =~= piece_views(pat@).skip(k + 1));
    }
    match &pat[k] {
        Piece::Lit(l) => {
            if lit_at(s, len, pos, l) {
                let n = l.unicode_len();
                proof {
                    assert(t.skip(n as int) =~= s@.skip(pos + n));
                }
                match_from(s, len, pat, k + 1, pos + n)
            } else {
                None
            }
        },
        Piece::Num => {
            let (n, v) = scan_number(s, len, pos);
            if n == 0 {
                return None;
            }
            match v {
                None => None,
                Some(x) => {
                    proof {
                        assert(t.skip(n as int) =~= s@.skip(pos + n));
                    }
                    match match_from(s, len, pat, k + 1, pos + n) {
                        Some(mut rest) => {
                            rest.insert(0, x);
                            proof {
                                assert(rest@ =~= seq![x] + match_pattern(s@.skip(pos + n), ps.drop_first())->0);
                            }
                            Some(rest)
                        },
                        None => None,
                    }
                },
            }
        },
    }
}

/// How many number pieces `pat` holds.
pub open spec fn num_count(pat: Seq<PieceView>) -> nat
    decreases pat.len(),
{
    if pat.len() == 0 {
        0
    } else {
        (if pat[0] is Num { 1nat } else { 0nat }) + num_count(pat.drop_first())
    }
}

/// A match reads one number per number piece.
pub proof fn lemma_match_len(s: Seq<char>, pat: Seq<PieceView>)
    ensures
        match_pattern(s, pat) matches Some(v) ==> v.len() == num_count(pat),
    decreases pat.len(),
{
    if pat.len() > 0 {
        match pat[0] {
            PieceView::Lit(l) => lemma_match_len(s.skip(l.len() as int), pat.drop_first()),
            PieceView::Num => lemma_match_len(s.skip(digit_run(s) as int), pat.drop_first()),
        }
    }
}

/// The signature of the Asobo engines.
pub open spec fn spec_asobo_pattern() -> Seq<PieceView> {
    seq![
        PieceView::Lit("v"@),
        PieceView::Num,
        PieceView::Lit("."@),
        PieceView::Num,
        PieceView::Lit("."@),
        PieceView::Num,
        PieceView::Lit("."@),
        PieceView::Num,
        PieceView::Lit(" - Asobo Studio - Internal Cross Technology"@),
    ]
}

fn asobo_pattern() -> (r: Vec<Piece>)
    ensures
        piece_views(r@) == spec_asobo_pattern(),
        num_count(spec_asobo_pattern()) == 4,
{
    let mut v: Vec<Piece> = Vec::new();
    v.push(Piece::Lit("v"));
    v.push(Piece::Num);
    v.push(Piece::Lit("."));
    v.push(Piece::Num);
    v.push(Piece::Lit("."));
    v.push(Piece::Num);
    v.push(Piece::Lit("."));
    v.push(Piece::Num);
    v.push(Piece::Lit(" - Asobo Studio - Internal Cross Technology"));
    assert(piece_views(v@) =~= spec_asobo_pattern());
    proof {
        reveal_with_fuel(num_count, 10);
    }
    v
}

/// The signature of the older Asobo engines.
pub open spec fn spec_asobo_legacy_pattern() -> Seq<PieceView> {
    seq![
        PieceView::Lit("v"@),
        PieceView::Num,
        PieceView::Lit("."@),
        PieceView::Num,
        PieceView::Lit(" - Asobo Studio - Internal Cross Technology"@),
    ]
}

fn asobo_legacy_pattern() -> (r: Vec<Piece>)
    ensures
        piece_views(r@) == spec_asobo_legacy_pattern(),
        num_count(spec_asobo_legacy_pattern()) == 2,
{
    let mut v: Vec<Piece> = Vec::new();
    v.push(Piece::Lit("v"));
    v.push(Piece::Num);
    v.push(Piece::Lit("."));
    v.push(Piece::Num);
    v.push(Piece::Lit(" - Asobo Studio - Internal Cross Technology"));
    assert(piece_views(v@) =~= spec_asobo_legacy_pattern());
    proof {
        reveal_with_fuel(num_count, 6);
    }
    v
}

/// The signature of the Kalisto engine.
pub open spec fn spec_kalisto_pattern() -> Seq<PieceView> {
    seq![
        PieceView::Lit("TotemTech Data v"@),
        PieceView::Num,
        PieceView::Lit("."@),
        PieceView::Num,
        PieceView::Lit(" (c) 1999-2002 Kalisto Entertainment - All right reserved"@),
    ]
}

fn kalisto_pattern() -> (r: Vec<Piece>)
    ensures
        piece_views(r@) == spec_kalisto_pattern(),
        num_count(spec_kalisto_pattern()) == 2,
{
    let mut v: Vec<Piece> = Vec::new();
    v.push(Piece::Lit("TotemTech Data v"));
    v.push(Piece::Num);
    v.push(Piece::Lit("."));
    v.push(Piece::Num);
    v.push(Piece::Lit(" (c) 1999-2002 Kalisto Entertainment - All right reserved"));
    assert(piece_views(v@) =~= spec_kalisto_pattern());
    proof {
        reveal_with_fuel(num_count, 6);
    }
    v
}

/// The signature of the Black Sheep engine, trailing space included.
pub open spec fn spec_black_sheep_pattern() -> Seq<PieceView> {
    seq![
        PieceView::Lit("Bigfile Data v"@),
        PieceView::Num,
        PieceView::Lit("."@),
        PieceView::Num,
        PieceView::Lit(" "@),
    ]
}

fn black_sheep_pattern() -> (r: Vec<Piece>)
    ensures
        piece_views(r@) == spec_black_sheep_pattern(),
        num_count(spec_black_sheep_pattern()) == 2,
{
    let mut v: Vec<Piece> = Vec::new();
    v.push(Piece::Lit("Bigfile Data v"));
    v.push(Piece::Num);
    v.push(Piece::Lit("."));
    v.push(Piece::Num);
    v.push(Piece::Lit(" "));
    assert(piece_views(v@) =~= spec_black_sheep_pattern());
    proof {
        reveal_with_fuel(num_count, 6);
    }
    v
}

/// The signature of the Opal engine.
pub open spec fn spec_ubisoft_pattern() -> Seq<PieceView> {
    seq![
        PieceView::Lit("Opal "@),
        PieceView::Num,
        PieceView::Lit("."@),
        PieceView::Num,
        PieceView::Lit(" BigFile | Data Version v"@),
        PieceView::Num,
        PieceView::Lit("."@),
        PieceView::Num,
        PieceView::Lit(" | CVT "@),
        PieceView::Num,
        PieceView::Lit(" | CVANIM "@),
        PieceView::Num,
        PieceView::Lit(" | CVMESH "@),
        PieceView::Num,
        PieceView::Lit(" | CVSHADER "@),
        PieceView::Num,
        PieceView::Lit(" |"@),
    ]
}

fn ubisoft_pattern() -> (r: Vec<Piece>)
    ensures
        piece_views(r@) == spec_ubisoft_pattern(),
        num_count(spec_ubisoft_pattern()) == 8,
{
    let mut v: Vec<Piece> = Vec::new();
    v.push(Piece::Lit("Opal "));
    v.push(Piece::Num);
    v.push(Piece::Lit("."));
    v.push(Piece::Num);
    v.push(Piece::Lit(" BigFile | Data Version v"));
    v.push(Piece::Num);
    v.push(Piece::Lit("."));
    v.push(Piece::Num);
    v.push(Piece::Lit(" | CVT "));
    v.push(Piece::Num);
    v.push(Piece::Lit(" | CVANIM "));
    v.push(Piece::Num);
    v.push(Piece::Lit(" | CVMESH "));
    v.push(Piece::Num);
    v.push(Piece::Lit(" | CVSHADER "));
    v.push(Piece::Num);
    v.push(Piece::Lit(" |"));
    assert(piece_views(v@) =~= spec_ubisoft_pattern());
    proof {
        reveal_with_fuel(num_count, 18);
    }
    v
}

/// The mathematical value of a version.
pub ghost enum VersionView {
    Asobo(u32, u32, u32, u32),
    AsoboLegacy(u32, u32),
    Kalisto(u32, u32),
    BlackSheep(u32, u32),
    Ubisoft {
        opal_version: (u32, u32),
        data_version: (u32, u32),
        cvt: u32,
        cvanim: u32,
        cvmesh: u32,
        cvshader: u32,
    },
    Other(Seq<char>),
}

impl View for Version {
    type V = VersionView;

    open spec fn view(&self) -> VersionView {
        match self {
            Version::Asobo(a, b, c, d) => VersionView::Asobo(*a, *b, *c, *d),
            Version::AsoboLegacy(a, b) => VersionView::AsoboLegacy(*a, *b),
            Version::Kalisto(a, b) => VersionView::Kalisto(*a, *b),
            Version::BlackSheep(a, b) => VersionView::BlackSheep(*a, *b),
            Version::Ubisoft { opal_version, data_version, cvt, cvanim, cvmesh, cvshader } =>
                VersionView::Ubisoft {
                opal_version: *opal_version,
                data_version: *data_version,
                cvt: *cvt,
                cvanim: *cvanim,
                cvmesh: *cvmesh,
                cvshader: *cvshader,
            },
            Version::Other(s) => VersionView::Other(s@),
        }
    }
}

/// The dialect that the signature `s` names: the first known pattern that matches the whole of
/// it, tried in a fixed order, or else the signature itself.
pub open spec fn spec_version(s: Seq<char>) -> VersionView {
    if let Some(v) = match_pattern(s, spec_asobo_pattern()) {
        VersionView::Asobo(v[0], v[1], v[2], v[3])
    } else if let Some(v) = match_pattern(s, spec_asobo_legacy_pattern()) {
        VersionView::AsoboLegacy(v[0], v[1])
    } else if let Some(v) = match_pattern(s, spec_kalisto_pattern()) {
        VersionView::Kalisto(v[0], v[1])
    } else if let Some(v) = match_pattern(s, spec_black_sheep_pattern()) {
        VersionView::BlackSheep(v[0], v[1])
    } else if let Some(v) = match_pattern(s, spec_ubisoft_pattern()) {
        VersionView::Ubisoft {
            opal_version: (v[0], v[1]),
            data_version: (v[2], v[3]),
            cvt: v[4],
            cvanim: v[5],
            cvmesh: v[6],
            cvshader: v[7],
        }
    } else {
        VersionView::Other(s)
    }
}

fn match_whole(s: &str, pat: &Vec<Piece>) -> (r: Option<Vec<u32>>)
    ensures
        match r {
            Some(v) => match_pattern(s@, piece_views(pat@)) == Some(v@),
            None => match_pattern(s@, piece_views(pat@)) is None,
        },
{
    let len = s.unicode_len();
    proof {
        assert(s@.skip(0) =~= s@);
        assert(piece_views(pat@).skip(0) =~= piece_views(pat@));
    }
    match_from(s, len, pat, 0, 0)
}

impl Version {
    /// The dialect that the version signature `value` names. A signature that no known pattern
    /// matches is kept as it is in `Other`.
    pub fn from_signature(value: &str) -> (r: Version)
        ensures
            r@ == spec_version(value@),
    {
        let pat = asobo_pattern();
        if let Some(v) = match_whole(value, &pat) {
            proof {
                lemma_match_len(value@, spec_asobo_pattern());
            }
            return Version::Asobo(v[0], v[1], v[2], v[3]);
        }
        let pat = asobo_legacy_pattern();
        if let Some(v) = match_whole(value, &pat) {
            proof {
                lemma_match_len(value@, spec_asobo_legacy_pattern());
            }
            return Version::AsoboLegacy(v[0], v[1]);
        }
        let pat = kalisto_pattern();
        if let Some(v) = match_whole(value, &pat) {
            proof {
                lemma_match_len(value@, spec_kalisto_pattern());
            }
            return Version::Kalisto(v[0], v[1]);
        }
        let pat = black_sheep_pattern();
        if let Some(v) = match_whole(value, &pat) {
            proof {
                lemma_match_len(value@, spec_black_sheep_pattern());
            }
            return Version::BlackSheep(v[0], v[1]);
        }
        let pat = ubisoft_pattern();
        if let Some(v) = match_whole(value, &pat) {
            proof {
                lemma_match_len(value@, spec_ubisoft_pattern());
            }
            return Version::Ubisoft {
                opal_version: (v[0], v[1]),
                data_version: (v[2], v[3]),
                cvt: v[4],
                cvanim: v[5],
                cvmesh: v[6],
                cvshader: v[7],
            };
        }
        Version::Other(value.to_owned())
    }
}

/// The character of the decimal digit `d`.
pub open spec fn digit_char(d: nat) -> char {
    if d == 0 {
        '0'
    } else if d == 1 {
        '1'
    } else if d == 2 {
        '2'
    } else if d == 3 {
        '3'
    } else if d == 4 {
        '4'
    } else if d == 5 {
        '5'
    } else if d == 6 {
        '6'
    } else if d == 7 {
        '7'
    } else if d == 8 {
        '8'
    } else {
        '9'
    }
}

/// The decimal writing of `n`, without leading zeros.
pub open spec fn dec(n: nat) -> Seq<char>
    decreases n,
{
    if n < 10 {
        seq![digit_char(n)]
    } else {
        dec(n / 10) + seq![digit_char(n % 10)]
    }
}

/// The decimal writing of `n`, on two digits at least.
pub open spec fn dec2(n: nat) -> Seq<char> {
    if n < 10 {
        seq!['0'] + dec(n)
    } else {
        dec(n)
    }
}

/// The version signature of a dialect.
pub open spec fn spec_signature(v: VersionView) -> Seq<char> {
    match v {
        VersionView::Asobo(a, b, c, d) => "v"@ + dec(a as nat) + "."@ + dec2(b as nat) + "."@ + dec2(
            c as nat,
        ) + "."@ + dec2(d as nat) + " - Asobo Studio - Internal Cross Technology"@,
        VersionView::AsoboLegacy(a, b) => "v"@ + dec(a as nat) + "."@ + dec2(b as nat)
            + " - Asobo Studio - Internal Cross Technology"@,
        VersionView::Kalisto(a, b) => "TotemTech Data v"@ + dec(a as nat) + "."@ + dec(b as nat)
            + " (c) 1999-2002 Kalisto Entertainment - All right reserved"@,
        VersionView::BlackSheep(a, b) => "Bigfile Data v"@ + dec(a as nat) + "."@ + dec(b as nat)
            + " "@,
        VersionView::Ubisoft { opal_version, data_version, cvt, cvanim, cvmesh, cvshader } =>
            "Opal "@ + dec(opal_version.0 as nat) + "."@ + dec(opal_version.1 as nat)
            + " BigFile | Data Version v"@ + dec(data_version.0 as nat) + "."@ + dec(
            data_version.1 as nat,
        ) + " | CVT "@ + dec(cvt as nat) + " | CVANIM "@ + dec(cvanim as nat) + " | CVMESH "@ + dec(
            cvmesh as nat,
        ) + " | CVSHADER "@ + dec(cvshader as nat) + " |"@,
        VersionView::Other(s) => s,
    }
}

fn digit_str(d: u32) -> (r: &'static str)
    requires
        d < 10,
    ensures
        r@ == seq![digit_char(d as nat)],
{
    match d {
        0 => {
            proof {
                reveal_strlit("0");
            }
            "0"
        },
        1 => {
            proof {
                reveal_strlit("1");
            }
            "1"
        },
        2 => {
            proof {
                reveal_strlit("2");
            }
            "2"
        },
        3 => {
            proof {
                reveal_strlit("3");
            }
            "3"
        },
        4 => {
            proof {
                reveal_strlit("4");
            }
            "4"
        },
        5 => {
            proof {
                reveal_strlit("5");
            }
            "5"
        },
        6 => {
            proof {
                reveal_strlit("6");
            }
            "6"
        },
        7 => {
            proof {
                reveal_strlit("7");
            }
            "7"
        },
        8 => {
            proof {
                reveal_strlit("8");
            }
            "8"
        },
        _ => {
            proof {
                reveal_strlit("9");
            }
            "9"
        },
    }
}

fn append_dec(s: &mut String, n: u32)
    ensures
        final(s)@ == old(s)@ + dec(n as nat),
    decreases n,
{
    if n >= 10 {
        append_dec(s, n / 10);
    }
    s.append(digit_str(n % 10));
    assert(final(s)@ =~= old(s)@ + dec(n as nat));
}

fn append_dec2(s: &mut String, n: u32)
    ensures
        final(s)@ == old(s)@ + dec2(n as nat),
{
    if n < 10 {
        proof {
            reveal_strlit("0");
        }
        s.append("0");
    }
    append_dec(s, n);
    assert(final(s)@ =~= old(s)@ + dec2(n as nat));
}

impl Version {
    /// The version signature that names this dialect: numbers in decimal, the minor numbers of the
    /// Asobo signatures on two digits; an unrecognized signature as it was.
    pub fn to_signature(&self) -> (r: String)
        ensures
            r@ == spec_signature(self@),
    {
        let mut s = String::new();
        match self {
            Version::Asobo(a, b, c, d) => {
                s.append("v");
                append_dec(&mut s, *a);
                s.append(".");
                append_dec2(&mut s, *b);
                s.append(".");
                append_dec2(&mut s, *c);
                s.append(".");
                append_dec2(&mut s, *d);
                s.append(" - Asobo Studio - Internal Cross Technology");
            },
            Version::AsoboLegacy(a, b) => {
                s.append("v");
                append_dec(&mut s, *a);
                s.append(".");
                append_dec2(&mut s, *b);
                s.append(" - Asobo Studio - Internal Cross Technology");
            },
            Version::Kalisto(a, b) => {
                s.append("TotemTech Data v");
                append_dec(&mut s, *a);
                s.append(".");
                append_dec(&mut s, *b);
                s.append(" (c) 1999-2002 Kalisto Entertainment - All right reserved");
            },
            Version::BlackSheep(a, b) => {
                s.append("Bigfile Data v");
                append_dec(&mut s, *a);
                s.append(".");
                append_dec(&mut s, *b);
                s.append(" ");
            },
            Version::Ubisoft { opal_version, data_version, cvt, cvanim, cvmesh, cvshader } => {
                s.append("Opal ");
                append_dec(&mut s, opal_version.0);
                s.append(".");
                append_dec(&mut s, opal_version.1);
                s.append(" BigFile | Data Version v");
                append_dec(&mut s, data_version.0);
                s.append(".");
                append_dec(&mut s, data_version.1);
                s.append(" | CVT ");
                append_dec(&mut s, *cvt);
                s.append(" | CVANIM ");
                append_dec(&mut s, *cvanim);
                s.append(" | CVMESH ");
                append_dec(&mut s, *cvmesh);
                s.append(" | CVSHADER ");
                append_dec(&mut s, *cvshader);
                s.append(" |");
            },
            Version::Other(o) => {
                s = o.clone();
            },
        }
        proof {
            assert(s@ =~= spec_signature(self@));
        }
        s
    }
}

pub proof fn lemma_digit_char(d: nat)
    requires
        d < 10,
    ensures
        is_digit(digit_char(d)),
        digit_char(d) as nat - '0' as nat == d,
{
}

pub proof fn lemma_dec(n: nat)
    ensures
        dec(n).len() >= 1,
        forall|i: int| 0 <= i < dec(n).len() ==> is_digit(#[trigger] dec(n)[i]),
        decimal_value(dec(n)) == n,
    decreases n,
{
    lemma_digit_char(n % 10);
    assert(dec(n).last() == digit_char(n % 10));
    if n < 10 {
        assert(dec(n).drop_last() =~= Seq::<char>::empty());
        assert(decimal_value(Seq::<char>::empty()) == 0);
        assert(decimal_value(dec(n)) == decimal_value(dec(n).drop_last()) * 10 + (dec(n).last() as nat - '0' as nat) as nat);
    }
    if n >= 10 {
        lemma_dec(n / 10);
        let s = dec(n / 10);
        assert(dec(n).drop_last() =~= s);
        assert(decimal_value(dec(n)) == decimal_value(s) * 10 + (dec(n).last() as nat - '0' as nat) as nat);
        assert((n / 10) * 10 + n % 10 == n);
        assert forall|i: int| 0 <= i < dec(n).len() implies is_digit(#[trigger] dec(n)[i]) by {
            if i < s.len() {
                assert(dec(n)[i] == s[i]);
            }
        }
    }
}

pub proof fn lemma_dec2(n: nat)
    ensures
        dec2(n).len() >= 1,
        forall|i: int| 0 <= i < dec2(n).len() ==> is_digit(#[trigger] dec2(n)[i]),
        decimal_value(dec2(n)) == n,
{
    lemma_dec(n);
    if n < 10 {
        let s = dec2(n);
        assert(s.drop_last() =~= seq!['0']);
        assert(seq!['0'].drop_last() =~= Seq::<char>::empty());
        assert(decimal_value(seq!['0']) == decimal_value(Seq::<char>::empty()) * 10 + ('0' as nat - '0' as nat) as nat);
        assert(s.last() == dec(n)[0]);
        assert(decimal_value(s) == decimal_value(seq!['0']) * 10 + (s.last() as nat - '0' as nat) as nat);
        assert forall|i: int| 0 <= i < s.len() implies is_digit(#[trigger] s[i]) by {
            if i == 1 {
                assert(s[1] == dec(n)[0]);
            }
        }
    }
}

/// A text piece matches where its text stands.
pub proof fn lemma_match_lit(l: Seq<char>, t: Seq<char>, pat: Seq<PieceView>, k: int)
    requires
        0 <= k < pat.len(),
        pat[k] == PieceView::Lit(l),
    ensures
        match_pattern(l + t, pat.skip(k)) == match_pattern(t, pat.skip(k + 1)),
{
    assert(pat.skip(k).drop_first() =~= pat.skip(k + 1));
    assert((l + t).subrange(0, l.len() as int) =~= l);
    assert((l + t).skip(l.len() as int) =~= t);
}

/// A text piece does not match where another text stands.
pub proof fn lemma_match_lit_fails(s: Seq<char>, l: Seq<char>, pat: Seq<PieceView>, k: int, i: int)
    requires
        0 <= k < pat.len(),
        pat[k] == PieceView::Lit(l),
        0 <= i < l.len(),
        i < s.len(),
        s[i] != l[i],
    ensures
        match_pattern(s, pat.skip(k)) is None,
{
    if l.len() <= s.len() {
        assert(s.subrange(0, l.len() as int)[i] == s[i]);
    }
}

/// A number piece matches the decimal digits `d` where a non-digit or the end follows them.
pub proof fn lemma_match_num(d: Seq<char>, t: Seq<char>, pat: Seq<PieceView>, k: int, n: nat)
    requires
        0 <= k < pat.len(),
        pat[k] == PieceView::Num,
        d.len() >= 1,
        forall|i: int| 0 <= i < d.len() ==> is_digit(#[trigger] d[i]),
        decimal_value(d) == n,
        n <= u32::MAX,
        t.len() == 0 || !is_digit(t[0]),
    ensures
        match_pattern(d + t, pat.skip(k)) == (match match_pattern(t, pat.skip(k + 1)) {
            Some(r) => Some(seq![n as u32] + r),
            None => None,
        }),
{
    let s = d + t;
    assert(pat.skip(k).drop_first() =~= pat.skip(k + 1));
    assert forall|i: int| 0 <= i < d.len() implies is_digit(#[trigger] s[i]) by {
        assert(s[i] == d[i]);
    }
    if t.len() > 0 {
        assert(s[d.len() as int] == t[0]);
    }
    lemma_digit_run(s, d.len());
    assert(s.take(d.len() as int) =~= d);
    assert(s.skip(d.len() as int) =~= t);
}

pub proof fn lemma_match_end(pat: Seq<PieceView>)
    ensures
        match_pattern(Seq::empty(), pat.skip(pat.len() as int)) == Some(Seq::<u32>::empty()),
{
    assert(pat.skip(pat.len() as int) =~= Seq::<PieceView>::empty());
}

proof fn lemma_asobo_match(a: u32, b: u32, c: u32, d: u32)
    ensures
        match_pattern(spec_signature(VersionView::Asobo(a, b, c, d)), spec_asobo_pattern()) == Some(seq![a] + (seq![b] + (seq![c] + (seq![d] + (Seq::<u32>::empty()))))),
{
    lemma_literal_heads();
    let pat = spec_asobo_pattern();
    let r9 = Seq::<char>::empty();
    let r8 = " - Asobo Studio - Internal Cross Technology"@ + r9;
    let r7 = dec2(d as nat) + r8;
    let r6 = "."@ + r7;
    let r5 = dec2(c as nat) + r6;
    let r4 = "."@ + r5;
    let r3 = dec2(b as nat) + r4;
    let r2 = "."@ + r3;
    let r1 = dec(a as nat) + r2;
    let r0 = "v"@ + r1;
    assert(r0 =~= spec_signature(VersionView::Asobo(a, b, c, d)));
    lemma_match_end(pat);
    assert(pat.len() == 9);
    lemma_match_lit(" - Asobo Studio - Internal Cross Technology"@, r9, pat, 8);
    lemma_dec2(d as nat);
    lemma_match_num(dec2(d as nat), r8, pat, 7, d as nat);
    lemma_match_lit("."@, r7, pat, 6);
    lemma_dec2(c as nat);
    lemma_match_num(dec2(c as nat), r6, pat, 5, c as nat);
    lemma_match_lit("."@, r5, pat, 4);
    lemma_dec2(b as nat);
    lemma_match_num(dec2(b as nat), r4, pat, 3, b as nat);
    lemma_match_lit("."@, r3, pat, 2);
    lemma_dec(a as nat);
    lemma_match_num(dec(a as nat), r2, pat, 1, a as nat);
    lemma_match_lit("v"@, r1, pat, 0);
    assert(pat.skip(0) =~= pat);
}

proof fn lemma_asobo_legacy_match(a: u32, b: u32)
    ensures
        match_pattern(spec_signature(VersionView::AsoboLegacy(a, b)), spec_asobo_legacy_pattern()) == Some(seq![a] + (seq![b] + (Seq::<u32>::empty()))),
{
    lemma_literal_heads();
    let pat = spec_asobo_legacy_pattern();
    let r5 = Seq::<char>::empty();
    let r4 = " - Asobo Studio - Internal Cross Technology"@ + r5;
    let r3 = dec2(b as nat) + r4;
    let r2 = "."@ + r3;
    let r1 = dec(a as nat) + r2;
    let r0 = "v"@ + r1;
    assert(r0 =~= spec_signature(VersionView::AsoboLegacy(a, b)));
    lemma_match_end(pat);
    assert(pat.len() == 5);
    lemma_match_lit(" - Asobo Studio - Internal Cross Technology"@, r5, pat, 4);
    lemma_dec2(b as nat);
    lemma_match_num(dec2(b as nat), r4, pat, 3, b as nat);
    lemma_match_lit("."@, r3, pat, 2);
    lemma_dec(a as nat);
    lemma_match_num(dec(a as nat), r2, pat, 1, a as nat);
    lemma_match_lit("v"@, r1, pat, 0);
    assert(pat.skip(0) =~= pat);
}

proof fn lemma_kalisto_match(a: u32, b: u32)
    ensures
        match_pattern(spec_signature(VersionView::Kalisto(a, b)), spec_kalisto_pattern()) == Some(seq![a] + (seq![b] + (Seq::<u32>::empty()))),
{
    lemma_literal_heads();
    let pat = spec_kalisto_pattern();
    let r5 = Seq::<char>::empty();
    let r4 = " (c) 1999-2002 Kalisto Entertainment - All right reserved"@ + r5;
    let r3 = dec(b as nat) + r4;
    let r2 = "."@ + r3;
    let r1 = dec(a as nat) + r2;
    let r0 = "TotemTech Data v"@ + r1;
    assert(r0 =~= spec_signature(VersionView::Kalisto(a, b)));
    lemma_match_end(pat);
    assert(pat.len() == 5);
    lemma_match_lit(" (c) 1999-2002 Kalisto Entertainment - All right reserved"@, r5, pat, 4);
    lemma_dec(b as nat);
    lemma_match_num(dec(b as nat), r4, pat, 3, b as nat);
    lemma_match_lit("."@, r3, pat, 2);
    lemma_dec(a as nat);
    lemma_match_num(dec(a as nat), r2, pat, 1, a as nat);
    lemma_match_lit("TotemTech Data v"@, r1, pat, 0);
    assert(pat.skip(0) =~= pat);
}

proof fn lemma_black_sheep_match(a: u32, b: u32)
    ensures
        match_pattern(spec_signature(VersionView::BlackSheep(a, b)), spec_black_sheep_pattern()) == Some(seq![a] + (seq![b] + (Seq::<u32>::empty()))),
{
    lemma_literal_heads();
    let pat = spec_black_sheep_pattern();
    let r5 = Seq::<char>::empty();
    let r4 = " "@ + r5;
    let r3 = dec(b as nat) + r4;
    let r2 = "."@ + r3;
    let r1 = dec(a as nat) + r2;
    let r0 = "Bigfile Data v"@ + r1;
    assert(r0 =~= spec_signature(VersionView::BlackSheep(a, b)));
    lemma_match_end(pat);
    assert(pat.len() == 5);
    lemma_match_lit(" "@, r5, pat, 4);
    lemma_dec(b as nat);
    lemma_match_num(dec(b as nat), r4, pat, 3, b as nat);
    lemma_match_lit("."@, r3, pat, 2);
    lemma_dec(a as nat);
    lemma_match_num(dec(a as nat), r2, pat, 1, a as nat);
    lemma_match_lit("Bigfile Data v"@, r1, pat, 0);
    assert(pat.skip(0) =~= pat);
}

/// The first character of each text piece of the known signatures, and that it is no digit.
proof fn lemma_literal_heads()
    ensures
        " "@.len() > 0 && !is_digit(" "@[0]),
        " (c) 1999-2002 Kalisto Entertainment - All right reserved"@.len() > 0 && !is_digit(" (c) 1999-2002 Kalisto Entertainment - All right reserved"@[0]),
        " - Asobo Studio - Internal Cross Technology"@.len() > 0 && !is_digit(" - Asobo Studio - Internal Cross Technology"@[0]),
        " BigFile | Data Version v"@.len() > 0 && !is_digit(" BigFile | Data Version v"@[0]),
        " | CVANIM "@.len() > 0 && !is_digit(" | CVANIM "@[0]),
        " | CVMESH "@.len() > 0 && !is_digit(" | CVMESH "@[0]),
        " | CVSHADER "@.len() > 0 && !is_digit(" | CVSHADER "@[0]),
        " | CVT "@.len() > 0 && !is_digit(" | CVT "@[0]),
        " |"@.len() > 0 && !is_digit(" |"@[0]),
        "."@.len() > 0 && !is_digit("."@[0]),
        "Bigfile Data v"@.len() > 0 && !is_digit("Bigfile Data v"@[0]),
        "Opal "@.len() > 0 && !is_digit("Opal "@[0]),
        "TotemTech Data v"@.len() > 0 && !is_digit("TotemTech Data v"@[0]),
        "v"@.len() > 0 && !is_digit("v"@[0]),
        "v"@[0] == 'v',
        "TotemTech Data v"@[0] == 'T',
        "Bigfile Data v"@[0] == 'B',
        "Opal "@[0] == 'O',
        "."@[0] == '.',
        " - Asobo Studio - Internal Cross Technology"@[0] == ' ',
{
    reveal_strlit(" ");
    reveal_strlit(" (c) 1999-2002 Kalisto Entertainment - All right reserved");
    reveal_strlit(" - Asobo Studio - Internal Cross Technology");
    reveal_strlit(" BigFile | Data Version v");
    reveal_strlit(" | CVANIM ");
    reveal_strlit(" | CVMESH ");
    reveal_strlit(" | CVSHADER ");
    reveal_strlit(" | CVT ");
    reveal_strlit(" |");
    reveal_strlit(".");
    reveal_strlit("Bigfile Data v");
    reveal_strlit("Opal ");
    reveal_strlit("TotemTech Data v");
    reveal_strlit("v");
}

/// The text of the Opal signature from its CVT field on.
#[verifier::opaque]
pub open spec fn ubisoft_tail(f: u32, g: u32, h: u32, j: u32) -> Seq<char> {
    " | CVT "@ + dec(f as nat) + " | CVANIM "@ + dec(g as nat) + " | CVMESH "@ + dec(h as nat)
        + " | CVSHADER "@ + dec(j as nat) + " |"@
}

proof fn lemma_ubisoft_tail(f: u32, g: u32, h: u32, j: u32)
    ensures
        match_pattern(ubisoft_tail(f, g, h, j), spec_ubisoft_pattern().skip(8)) == Some(
            seq![f] + (seq![g] + (seq![h] + (seq![j] + Seq::<u32>::empty()))),
        ),
        ubisoft_tail(f, g, h, j).len() > 0,
        !is_digit(ubisoft_tail(f, g, h, j)[0]),
{
    reveal(ubisoft_tail);
    lemma_literal_heads();
    let pat = spec_ubisoft_pattern();
    let r17 = Seq::<char>::empty();
    let r16 = " |"@ + r17;
    let r15 = dec(j as nat) + r16;
    let r14 = " | CVSHADER "@ + r15;
    let r13 = dec(h as nat) + r14;
    let r12 = " | CVMESH "@ + r13;
    let r11 = dec(g as nat) + r12;
    let r10 = " | CVANIM "@ + r11;
    let r9 = dec(f as nat) + r10;
    let r8 = " | CVT "@ + r9;
    assert(r8 =~= ubisoft_tail(f, g, h, j));
    lemma_match_end(pat);
    assert(pat.len() == 17);
    lemma_match_lit(" |"@, r17, pat, 16);
    lemma_dec(j as nat);
    lemma_match_num(dec(j as nat), r16, pat, 15, j as nat);
    lemma_match_lit(" | CVSHADER "@, r15, pat, 14);
    lemma_dec(h as nat);
    lemma_match_num(dec(h as nat), r14, pat, 13, h as nat);
    lemma_match_lit(" | CVMESH "@, r13, pat, 12);
    lemma_dec(g as nat);
    lemma_match_num(dec(g as nat), r12, pat, 11, g as nat);
    lemma_match_lit(" | CVANIM "@, r11, pat, 10);
    lemma_dec(f as nat);
    lemma_match_num(dec(f as nat), r10, pat, 9, f as nat);
    lemma_match_lit(" | CVT "@, r9, pat, 8);
}

/// The text of the Opal signature up to its CVT field.
#[verifier::opaque]
pub open spec fn ubisoft_head(a: u32, b: u32, c: u32, d: u32) -> Seq<char> {
    "Opal "@ + dec(a as nat) + "."@ + dec(b as nat) + " BigFile | Data Version v"@ + dec(c as nat)
        + "."@ + dec(d as nat)
}

proof fn lemma_ubisoft_split(a: u32, b: u32, c: u32, d: u32, f: u32, g: u32, h: u32, j: u32)
    ensures
        spec_signature(
            VersionView::Ubisoft {
                opal_version: (a, b),
                data_version: (c, d),
                cvt: f,
                cvanim: g,
                cvmesh: h,
                cvshader: j,
            },
        ) == ubisoft_head(a, b, c, d) + ubisoft_tail(f, g, h, j),
{
    reveal(ubisoft_tail);
    reveal(ubisoft_head);
    let x = ubisoft_head(a, b, c, d);
    assert(spec_signature(
        VersionView::Ubisoft {
            opal_version: (a, b),
            data_version: (c, d),
            cvt: f,
            cvanim: g,
            cvmesh: h,
            cvshader: j,
        },
    ) =~= x + ubisoft_tail(f, g, h, j));
}

#[verifier::rlimit(100)]
proof fn lemma_ubisoft_match(a: u32, b: u32, c: u32, d: u32, f: u32, g: u32, h: u32, j: u32)
    ensures
        match_pattern(
            spec_signature(
                VersionView::Ubisoft {
                    opal_version: (a, b),
                    data_version: (c, d),
                    cvt: f,
                    cvanim: g,
                    cvmesh: h,
                    cvshader: j,
                },
            ),
            spec_ubisoft_pattern(),
        ) == Some(
            seq![a] + (seq![b] + (seq![c] + (seq![d] + (seq![f] + (seq![g] + (seq![h] + (seq![
                j,
            ] + Seq::<u32>::empty()))))))),
        ),
{
    lemma_literal_heads();
    let pat = spec_ubisoft_pattern();
    let r8 = ubisoft_tail(f, g, h, j);
    let r7 = dec(d as nat) + r8;
    let r6 = "."@ + r7;
    let r5 = dec(c as nat) + r6;
    let r4 = " BigFile | Data Version v"@ + r5;
    let r3 = dec(b as nat) + r4;
    let r2 = "."@ + r3;
    let r1 = dec(a as nat) + r2;
    let r0 = "Opal "@ + r1;
    let v = VersionView::Ubisoft {
        opal_version: (a, b),
        data_version: (c, d),
        cvt: f,
        cvanim: g,
        cvmesh: h,
        cvshader: j,
    };
    lemma_ubisoft_split(a, b, c, d, f, g, h, j);
    reveal(ubisoft_head);
    assert(r0 =~= ubisoft_head(a, b, c, d) + r8);
    assert(pat.len() == 17);
    lemma_ubisoft_tail(f, g, h, j);
    lemma_dec(d as nat);
    lemma_match_num(dec(d as nat), r8, pat, 7, d as nat);
    lemma_match_lit("."@, r7, pat, 6);
    lemma_dec(c as nat);
    lemma_match_num(dec(c as nat), r6, pat, 5, c as nat);
    lemma_match_lit(" BigFile | Data Version v"@, r5, pat, 4);
    lemma_dec(b as nat);
    lemma_match_num(dec(b as nat), r4, pat, 3, b as nat);
    lemma_match_lit("."@, r3, pat, 2);
    lemma_dec(a as nat);
    lemma_match_num(dec(a as nat), r2, pat, 1, a as nat);
    lemma_match_lit("Opal "@, r1, pat, 0);
    assert(pat.skip(0) =~= pat);
}

/// A signature that begins with a character other than the first of a pattern's leading text
/// matches no such pattern.
proof fn lemma_first_char_fails(sig: Seq<char>, pat: Seq<PieceView>, l: Seq<char>)
    requires
        pat.len() > 0,
        pat[0] == PieceView::Lit(l),
        l.len() > 0,
        sig.len() > 0,
        sig[0] != l[0],
    ensures
        match_pattern(sig, pat) is None,
{
    lemma_match_lit_fails(sig, l, pat, 0, 0);
    assert(pat.skip(0) =~= pat);
}

proof fn lemma_legacy_is_not_asobo(a: u32, b: u32)
    ensures
        match_pattern(spec_signature(VersionView::AsoboLegacy(a, b)), spec_asobo_pattern()) is None,
{
    lemma_literal_heads();
    let pat = spec_asobo_pattern();
    let tail = " - Asobo Studio - Internal Cross Technology"@;
    let r3 = dec2(b as nat) + tail;
    let r2 = "."@ + r3;
    let r1 = dec(a as nat) + r2;
    let r0 = "v"@ + r1;
    assert(r0 =~= spec_signature(VersionView::AsoboLegacy(a, b)));
    lemma_match_lit_fails(tail, "."@, pat, 4, 0);
    lemma_dec2(b as nat);
    lemma_match_num(dec2(b as nat), tail, pat, 3, b as nat);
    lemma_match_lit("."@, r3, pat, 2);
    lemma_dec(a as nat);
    lemma_match_num(dec(a as nat), r2, pat, 1, a as nat);
    lemma_match_lit("v"@, r1, pat, 0);
    assert(pat.skip(0) =~= pat);
}

/// Parsing the signature of a known dialect gives that dialect back.
pub proof fn lemma_signature_round_trip(v: VersionView)
    requires
        !(v is Other),
    ensures
        spec_version(spec_signature(v)) == v,
{
    lemma_literal_heads();
    let sig = spec_signature(v);
    match v {
        VersionView::Asobo(a, b, c, d) => {
            lemma_asobo_match(a, b, c, d);
            let r = seq![a] + (seq![b] + (seq![c] + (seq![d] + Seq::<u32>::empty())));
            assert(r =~= seq![a, b, c, d]);
        },
        VersionView::AsoboLegacy(a, b) => {
            lemma_legacy_is_not_asobo(a, b);
            lemma_asobo_legacy_match(a, b);
            let r = seq![a] + (seq![b] + Seq::<u32>::empty());
            assert(r =~= seq![a, b]);
        },
        VersionView::Kalisto(a, b) => {
            assert(sig[0] == 'T');
            lemma_first_char_fails(sig, spec_asobo_pattern(), "v"@);
            lemma_first_char_fails(sig, spec_asobo_legacy_pattern(), "v"@);
            lemma_kalisto_match(a, b);
            let r = seq![a] + (seq![b] + Seq::<u32>::empty());
            assert(r =~= seq![a, b]);
        },
        VersionView::BlackSheep(a, b) => {
            assert(sig[0] == 'B');
            lemma_first_char_fails(sig, spec_asobo_pattern(), "v"@);
            lemma_first_char_fails(sig, spec_asobo_legacy_pattern(), "v"@);
            lemma_first_char_fails(sig, spec_kalisto_pattern(), "TotemTech Data v"@);
            lemma_black_sheep_match(a, b);
            let r = seq![a] + (seq![b] + Seq::<u32>::empty());
            assert(r =~= seq![a, b]);
        },
        VersionView::Ubisoft { opal_version, data_version, cvt, cvanim, cvmesh, cvshader } => {
            assert(sig[0] == 'O');
            lemma_first_char_fails(sig, spec_asobo_pattern(), "v"@);
            lemma_first_char_fails(sig, spec_asobo_legacy_pattern(), "v"@);
            lemma_first_char_fails(sig, spec_kalisto_pattern(), "TotemTech Data v"@);
            lemma_first_char_fails(sig, spec_black_sheep_pattern(), "Bigfile Data v"@);
            lemma_ubisoft_match(
                opal_version.0,
                opal_version.1,
                data_version.0,
                data_version.1,
                cvt,
                cvanim,
                cvmesh,
                cvshader,
            );
            let r = seq![opal_version.0] + (seq![opal_version.1] + (seq![data_version.0] + (seq![
                data_version.1,
            ] + (seq![cvt] + (seq![cvanim] + (seq![cvmesh] + (seq![cvshader]
                + Seq::<u32>::empty())))))));
            assert(r =~= seq![
                opal_version.0,
                opal_version.1,
                data_version.0,
                data_version.1,
                cvt,
                cvanim,
                cvmesh,
                cvshader,
            ]);
        },
        VersionView::Other(_) => {},
    }
}

} // verus!
