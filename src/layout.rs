use vstd::prelude::*;

use crate::binary::{
    dyn_bytes_bytes, dyn_bytes_wf, dyn_words_bytes, dyn_words_wf, lemma_dyn_bytes_unique,
    lemma_dyn_words_unique, lemma_starts_with_concat, lemma_starts_with_trans, lemma_rest_rest, lemma_u16_prefix, lemma_u32_prefix,
    lemma_words_len, lemma_words_unique, lemma_u32_round_trip, lemma_u16_round_trip, read_dyn_bytes,
    read_dyn_words, read_u16, read_u32, read_words, rest, write_dyn_bytes, write_dyn_words,
    write_u16, write_u32, write_words, starts_with, u16_bytes, u32_bytes, words_bytes, Endian,
};
use crate::error::Error;

verus! {

/// The shape of one field of a record, as it stands on the wire.
#[derive(Clone, Copy, Debug, PartialEq, Eq, Structural)]
pub enum FieldKind {
    /// A 32-bit number: a name hash, a flag word, the bits of a float.
    Word,
    /// A 16-bit number.
    Half,
    /// A 16-bit object type: one of the values that the format lists.
    ObjectType,
    /// A fixed number of 32-bit words (a vector, a quaternion, a matrix).
    Words(usize),
    /// A 32-bit count of groups, then that many groups of the given number of words.
    DynWords(usize),
    /// A 32-bit count of bytes, then the bytes.
    DynBytes,
}

/// The value of one field.
#[derive(Debug, PartialEq, Eq)]
pub enum FieldValue {
    Word(u32),
    Half(u16),
    Words(Vec<u32>),
    DynWords(Vec<u32>),
    DynBytes(Vec<u8>),
}

/// The mathematical value of a field.
pub ghost enum FieldView {
    Word(u32),
    Half(u16),
    Words(Seq<u32>),
    DynWords(Seq<u32>),
    DynBytes(Seq<u8>),
}

impl View for FieldValue {
    type V = FieldView;

    open spec fn view(&self) -> FieldView {
        match self {
            FieldValue::Word(x) => FieldView::Word(*x),
            FieldValue::Half(x) => FieldView::Half(*x),
            FieldValue::Words(v) => FieldView::Words(v@),
            FieldValue::DynWords(v) => FieldView::DynWords(v@),
            FieldValue::DynBytes(v) => FieldView::DynBytes(v@),
        }
    }
}

/// The values of a list of fields.
pub open spec fn views(fs: Seq<FieldValue>) -> Seq<FieldView> {
    fs.map_values(|f: FieldValue| f@)
}

/// A kind that a decoder can read.
pub open spec fn kind_ok(k: FieldKind) -> bool {
    match k {
        FieldKind::DynWords(w) => 1 <= w <= 16,
        _ => true,
    }
}

/// The object types that the format lists: 0 to 26, but for 8.
pub open spec fn object_type_known(x: u16) -> bool {
    x <= 26 && x != 8
}

/// The field `f` has kind `k` and can be written.
pub open spec fn field_fits(f: FieldView, k: FieldKind) -> bool {
    match (f, k) {
        (FieldView::Word(_), FieldKind::Word) => true,
        (FieldView::Half(_), FieldKind::Half) => true,
        (FieldView::Half(x), FieldKind::ObjectType) => object_type_known(x),
        (FieldView::Words(v), FieldKind::Words(n)) => v.len() == n,
        (FieldView::DynWords(v), FieldKind::DynWords(w)) => 1 <= w <= 16 && dyn_words_wf(v, w as nat),
        (FieldView::DynBytes(v), FieldKind::DynBytes) => dyn_bytes_wf(v),
        _ => false,
    }
}

/// The bytes of the field `f` of kind `k`.
pub open spec fn field_bytes(f: FieldView, k: FieldKind, e: Endian) -> Seq<u8> {
    match f {
        FieldView::Word(x) => u32_bytes(x, e),
        FieldView::Half(x) => u16_bytes(x, e),
        FieldView::Words(v) => words_bytes(v, e),
        FieldView::DynWords(v) => match k {
            FieldKind::DynWords(w) => dyn_words_bytes(v, w as nat, e),
            _ => Seq::empty(),
        },
        FieldView::DynBytes(v) => dyn_bytes_bytes(v, e),
    }
}

/// Each of the fields `fs` has the kind that stands at its place in `ks`.
pub open spec fn fields_fit(fs: Seq<FieldView>, ks: Seq<FieldKind>) -> bool {
    &&& fs.len() <= ks.len()
    &&& forall|i: int| 0 <= i < fs.len() ==> field_fits(#[trigger] fs[i], ks[i])
}

/// The bytes of the fields `fs`, one after another, each of the kind at its place in `ks`.
pub open spec fn fields_bytes(fs: Seq<FieldView>, ks: Seq<FieldKind>, e: Endian) -> Seq<u8>
    decreases fs.len(),
{
    if fs.len() == 0 {
        Seq::empty()
    } else {
        fields_bytes(fs.drop_last(), ks, e) + field_bytes(fs.last(), ks[fs.len() - 1], e)
    }
}

/// Two fields of one kind whose bytes both begin `t` are equal.
pub proof fn lemma_field_unique(t: Seq<u8>, a: FieldView, b: FieldView, k: FieldKind, e: Endian)
    requires
        field_fits(a, k),
        field_fits(b, k),
        starts_with(t, field_bytes(a, k, e)),
        starts_with(t, field_bytes(b, k, e)),
    ensures
        a == b,
{
    match (a, b) {
        (FieldView::Word(x), FieldView::Word(y)) => {
            lemma_u32_prefix(t, x, e);
            lemma_u32_prefix(t, y, e);
        },
        (FieldView::Half(x), FieldView::Half(y)) => {
            lemma_u16_prefix(t, x, e);
            lemma_u16_prefix(t, y, e);
        },
        (FieldView::Words(x), FieldView::Words(y)) => {
            lemma_words_unique(t, x, y, e);
        },
        (FieldView::DynWords(x), FieldView::DynWords(y)) => {
            if let FieldKind::DynWords(w) = k {
                lemma_dyn_words_unique(t, x, y, w as nat, e);
            }
        },
        (FieldView::DynBytes(x), FieldView::DynBytes(y)) => {
            lemma_dyn_bytes_unique(t, x, y, e);
        },
        _ => {},
    }
}

/// Two lists of fields of one length, fitting the same kinds, whose bytes both begin `t`, are
/// equal.
pub proof fn lemma_fields_unique(
    t: Seq<u8>,
    a: Seq<FieldView>,
    b: Seq<FieldView>,
    ks: Seq<FieldKind>,
    e: Endian,
)
    requires
        a.len() == b.len(),
        fields_fit(a, ks),
        fields_fit(b, ks),
        starts_with(t, fields_bytes(a, ks, e)),
        starts_with(t, fields_bytes(b, ks, e)),
    ensures
        a == b,
        fields_bytes(a, ks, e) == fields_bytes(b, ks, e),
    decreases a.len(),
{
    if a.len() > 0 {
        let n = a.len() - 1;
        let a0 = a.drop_last();
        let b0 = b.drop_last();
        lemma_starts_with_concat(t, fields_bytes(a0, ks, e), field_bytes(a.last(), ks[n], e));
        lemma_starts_with_concat(t, fields_bytes(b0, ks, e), field_bytes(b.last(), ks[n], e));
        assert(fields_fit(a0, ks)) by {
            assert forall|i: int| 0 <= i < a0.len() implies field_fits(#[trigger] a0[i], ks[i]) by {
                assert(a0[i] == a[i]);
            }
        }
        assert(fields_fit(b0, ks)) by {
            assert forall|i: int| 0 <= i < b0.len() implies field_fits(#[trigger] b0[i], ks[i]) by {
                assert(b0[i] == b[i]);
            }
        }
        lemma_fields_unique(t, a0, b0, ks, e);
        assert(field_fits(a[n], ks[n]));
        assert(field_fits(b[n], ks[n]));
        lemma_field_unique(
            rest(t, fields_bytes(a0, ks, e).len() as int),
            a.last(),
            b.last(),
            ks[n],
            e,
        );
        assert forall|i: int| 0 <= i < a.len() implies a[i] == b[i] by {
            if i < n {
                assert(a[i] == a0[i] && b[i] == b0[i]);
            }
        }
        assert(a =~= b);
    } else {
        assert(a =~= b);
    }
}

/// Reads one field of kind `k` at `pos`; returns it with the position after it.
pub fn read_field(buf: &[u8], pos: usize, k: FieldKind, e: Endian) -> (r: Result<
    (FieldValue, usize),
    Error,
>)
    requires
        pos <= buf@.len(),
        kind_ok(k),
    ensures
        match r {
            Ok((f, end)) => {
                &&& field_fits(f@, k)
                &&& end == pos + field_bytes(f@, k, e).len()
                &&& starts_with(rest(buf@, pos as int), field_bytes(f@, k, e))
            },
            Err(err) => (err == Error::TruncatedInput || err == Error::MalformedHeader) && forall|g: FieldView|
                field_fits(g, k) ==> !starts_with(
                    rest(buf@, pos as int),
                    #[trigger] field_bytes(g, k, e),
                ),
        },
{
    match k {
        FieldKind::Word => match read_u32(buf, pos, e) {
            Ok((x, end)) => {
                proof {
                    lemma_u32_round_trip(x, e);
                }
                Ok((FieldValue::Word(x), end))
            },
            Err(err) => {
                proof {
                    assert forall|g: FieldView| field_fits(g, k) implies !starts_with(
                        rest(buf@, pos as int),
                        #[trigger] field_bytes(g, k, e),
                    ) by {
                        if let FieldView::Word(y) = g {
                            lemma_u32_round_trip(y, e);
                        }
                    }
                }
                Err(err)
            },
        },
        FieldKind::Half => match read_u16(buf, pos, e) {
            Ok((x, end)) => {
                proof {
                    lemma_u16_round_trip(x, e);
                }
                Ok((FieldValue::Half(x), end))
            },
            Err(err) => {
                proof {
                    assert forall|g: FieldView| field_fits(g, k) implies !starts_with(
                        rest(buf@, pos as int),
                        #[trigger] field_bytes(g, k, e),
                    ) by {
                        if let FieldView::Half(y) = g {
                            lemma_u16_round_trip(y, e);
                        }
                    }
                }
                Err(err)
            },
        },
        FieldKind::ObjectType => match read_u16(buf, pos, e) {
            Ok((x, end)) => {
                proof {
                    lemma_u16_round_trip(x, e);
                }
                if x > 26 || x == 8 {
                    proof {
                        assert forall|g: FieldView| field_fits(g, k) implies !starts_with(
                            rest(buf@, pos as int),
                            #[trigger] field_bytes(g, k, e),
                        ) by {
                            if let FieldView::Half(y) = g {
                                if starts_with(rest(buf@, pos as int), u16_bytes(y, e)) {
                                    lemma_u16_prefix(rest(buf@, pos as int), y, e);
                                    lemma_u16_prefix(rest(buf@, pos as int), x, e);
                                }
                            }
                        }
                    }
                    return Err(Error::MalformedHeader);
                }
                Ok((FieldValue::Half(x), end))
            },
            Err(err) => {
                proof {
                    assert forall|g: FieldView| field_fits(g, k) implies !starts_with(
                        rest(buf@, pos as int),
                        #[trigger] field_bytes(g, k, e),
                    ) by {
                        if let FieldView::Half(y) = g {
                            lemma_u16_round_trip(y, e);
                        }
                    }
                }
                Err(err)
            },
        },
        FieldKind::Words(n) => match read_words(buf, pos, n, e) {
            Ok((v, end)) => {
                proof {
                    lemma_words_len(v@, e);
                }
                Ok((FieldValue::Words(v), end))
            },
            Err(err) => {
                proof {
                    assert forall|g: FieldView| field_fits(g, k) implies !starts_with(
                        rest(buf@, pos as int),
                        #[trigger] field_bytes(g, k, e),
                    ) by {
                        if let FieldView::Words(y) = g {
                            lemma_words_len(y, e);
                        }
                    }
                }
                Err(err)
            },
        },
        FieldKind::DynWords(w) => match read_dyn_words(buf, pos, w, e) {
            Ok((v, end)) => Ok((FieldValue::DynWords(v), end)),
            Err(err) => {
                proof {
                    assert forall|g: FieldView| field_fits(g, k) implies !starts_with(
                        rest(buf@, pos as int),
                        #[trigger] field_bytes(g, k, e),
                    ) by {
                        if let FieldView::DynWords(y) = g {
                            assert(dyn_words_wf(y, w as nat));
                        }
                    }
                }
                Err(err)
            },
        },
        FieldKind::DynBytes => match read_dyn_bytes(buf, pos, e) {
            Ok((v, end)) => Ok((FieldValue::DynBytes(v), end)),
            Err(err) => {
                proof {
                    assert forall|g: FieldView| field_fits(g, k) implies !starts_with(
                        rest(buf@, pos as int),
                        #[trigger] field_bytes(g, k, e),
                    ) by {
                        if let FieldView::DynBytes(y) = g {
                            assert(dyn_bytes_wf(y));
                        }
                    }
                }
                Err(err)
            },
        },
    }
}

/// Appends the bytes of the field `f` of kind `k`.
pub fn write_field(out: &mut Vec<u8>, f: &FieldValue, k: FieldKind, e: Endian)
    requires
        field_fits(f@, k),
    ensures
        final(out)@ == old(out)@ + field_bytes(f@, k, e),
{
    match f {
        FieldValue::Word(x) => write_u32(out, *x, e),
        FieldValue::Half(x) => write_u16(out, *x, e),
        FieldValue::Words(v) => write_words(out, v, e),
        FieldValue::DynWords(v) => {
            if let FieldKind::DynWords(w) = k {
                write_dyn_words(out, v, w, e);
            }
        },
        FieldValue::DynBytes(v) => write_dyn_bytes(out, v, e),
    }
}

/// The bytes of the first `j` fields begin the bytes of all of them.
pub proof fn lemma_fields_take(gs: Seq<FieldView>, ks: Seq<FieldKind>, j: int, e: Endian)
    requires
        0 <= j <= gs.len(),
    ensures
        starts_with(fields_bytes(gs, ks, e), fields_bytes(gs.take(j), ks, e)),
    decreases gs.len(),
{
    if j == gs.len() {
        assert(gs.take(j) =~= gs);
        assert(fields_bytes(gs, ks, e).subrange(0, fields_bytes(gs, ks, e).len() as int) =~= fields_bytes(gs, ks, e));
    } else {
        let g0 = gs.drop_last();
        lemma_fields_take(g0, ks, j, e);
        assert(g0.take(j) =~= gs.take(j));
        lemma_starts_with_concat(
            fields_bytes(gs, ks, e),
            fields_bytes(g0, ks, e),
            field_bytes(gs.last(), ks[gs.len() - 1], e),
        );
        assert(fields_bytes(gs, ks, e).subrange(0, fields_bytes(g0, ks, e).len() as int)
            =~= fields_bytes(g0, ks, e));
        lemma_starts_with_trans(
            fields_bytes(gs, ks, e),
            fields_bytes(g0, ks, e),
            fields_bytes(gs.take(j), ks, e),
        );
    }
}

/// Reads one field of each kind of `ks`, in order, from `pos`; returns them with the position
/// after the last.
pub fn read_fields(buf: &[u8], pos: usize, ks: &Vec<FieldKind>, e: Endian) -> (r: Result<
    (Vec<FieldValue>, usize),
    Error,
>)
    requires
        pos <= buf@.len(),
        forall|i: int| 0 <= i < ks@.len() ==> kind_ok(#[trigger] ks@[i]),
    ensures
        match r {
            Ok((fs, end)) => {
                &&& fs@.len() == ks@.len()
                &&& fields_fit(views(fs@), ks@)
                &&& end == pos + fields_bytes(views(fs@), ks@, e).len()
                &&& starts_with(rest(buf@, pos as int), fields_bytes(views(fs@), ks@, e))
            },
            Err(err) => (err == Error::TruncatedInput || err == Error::MalformedHeader) && forall|gs: Seq<FieldView>|
                gs.len() == ks@.len() && fields_fit(gs, ks@) ==> !starts_with(
                    rest(buf@, pos as int),
                    #[trigger] fields_bytes(gs, ks@, e),
                ),
        },
{
    let mut fs: Vec<FieldValue> = Vec::new();
    let mut p: usize = pos;
    let mut i: usize = 0;
    let ghost t = rest(buf@, pos as int);
    assert(views(fs@) =~= Seq::<FieldView>::empty());
    assert(t.subrange(0, 0) =~= Seq::<u8>::empty());
    while i < ks.len()
        invariant
            pos <= p <= buf@.len(),
            t == rest(buf@, pos as int),
            forall|j: int| 0 <= j < ks@.len() ==> kind_ok(#[trigger] ks@[j]),
            i <= ks@.len(),
            fs@.len() == i,
            fields_fit(views(fs@), ks@),
            p == pos + fields_bytes(views(fs@), ks@, e).len(),
            starts_with(t, fields_bytes(views(fs@), ks@, e)),
        decreases ks@.len() - i,
    {
        let ghost done = views(fs@);
        proof {
            lemma_rest_rest(buf@, pos as int, p - pos);
        }
        match read_field(buf, p, ks[i], e) {
            Ok((f, q)) => {
                let ghost fv = f@;
                fs.push(f);
                proof {
                    assert(views(fs@) =~= done.push(fv));
                    assert(views(fs@).drop_last() =~= done);
                    lemma_starts_with_concat(t, fields_bytes(done, ks@, e), field_bytes(fv, ks@[i as int], e));
                    assert forall|j: int| 0 <= j < views(fs@).len() implies field_fits(
                        #[trigger] views(fs@)[j],
                        ks@[j],
                    ) by {
                        if j < i {
                            assert(views(fs@)[j] == done[j]);
                        }
                    }
                }
                p = q;
            },
            Err(err) => {
                proof {
                    assert forall|gs: Seq<FieldView>|
                        gs.len() == ks@.len() && fields_fit(gs, ks@) implies !starts_with(
                        t,
                        #[trigger] fields_bytes(gs, ks@, e),
                    ) by {
                        if starts_with(t, fields_bytes(gs, ks@, e)) {
                            let head = gs.take(i as int);
                            let next = gs.take(i + 1);
                            lemma_fields_take(gs, ks@, i + 1, e);
                            lemma_starts_with_trans(t, fields_bytes(gs, ks@, e), fields_bytes(next, ks@, e));
                            assert(next.drop_last() =~= head);
                            lemma_starts_with_concat(t, fields_bytes(head, ks@, e), field_bytes(gs[i as int], ks@[i as int], e));
                            assert forall|j: int| 0 <= j < head.len() implies field_fits(
                                #[trigger] head[j],
                                ks@[j],
                            ) by {
                                assert(head[j] == gs[j]);
                            }
                            lemma_fields_unique(t, head, done, ks@, e);
                            assert(field_fits(gs[i as int], ks@[i as int]));
                        }
                    }
                }
                return Err(err);
            },
        }
        i = i + 1;
    }
    Ok((fs, p))
}

/// Appends the bytes of the fields `fs`, each of the kind at its place in `ks`.
pub fn write_fields(out: &mut Vec<u8>, fs: &Vec<FieldValue>, ks: &Vec<FieldKind>, e: Endian)
    requires
        fields_fit(views(fs@), ks@),
    ensures
        final(out)@ == old(out)@ + fields_bytes(views(fs@), ks@, e),
{
    let mut i: usize = 0;
    while i < fs.len()
        invariant
            i <= fs@.len(),
            fields_fit(views(fs@), ks@),
            out@ == old(out)@ + fields_bytes(views(fs@).take(i as int), ks@, e),
        decreases fs@.len() - i,
    {
        proof {
            assert(field_fits(views(fs@)[i as int], ks@[i as int]));
        }
        write_field(out, &fs[i], ks[i], e);
        proof {
            assert(views(fs@).take(i + 1).drop_last() =~= views(fs@).take(i as int));
        }
        i = i + 1;
        proof {
            assert(out@ =~= old(out)@ + fields_bytes(views(fs@).take(i as int), ks@, e));
        }
    }
    assert(views(fs@).take(i as int) =~= views(fs@));
}

} // verus!
