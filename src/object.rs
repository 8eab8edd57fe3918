use vstd::prelude::*;

use crate::binary::{
    lemma_rest_rest, lemma_starts_with_concat, lemma_u32_prefix, copy_range, read_u32, rest, starts_with, u32_bytes, u32_of, write_bytes,
    write_u32, Endian,
};
use crate::error::Error;

verus! {

/// One raw entry of a pool: its sizes, its class and name hashes, and its data (the link header
/// followed by the body).
#[derive(Debug, PartialEq, Eq)]
pub struct Object {
    pub link_header_size: u32,
    pub decompressed_size: u32,
    pub compressed_size: u32,
    pub class_name: u32,
    pub name: u32,
    pub data: Vec<u8>,
}

/// Why no entry can be read from the start of `t`: `TruncatedInput` where the header or the
/// declared data is cut short, `SizeMismatch` where the declared link header is longer than the
/// declared data; `None` where an entry can be read.
pub open spec fn read_error(t: Seq<u8>, e: Endian) -> Option<Error> {
    let data_size = u32_of(t, e);
    let lh_size = u32_of(rest(t, 4), e);
    if t.len() < 24 || t.len() < 24 + data_size {
        Some(Error::TruncatedInput)
    } else if lh_size > data_size {
        Some(Error::SizeMismatch)
    } else {
        None
    }
}

impl Object {
    /// The data size fits its field and the link header lies within the data.
    pub open spec fn wf(&self) -> bool {
        &&& self.data@.len() <= u32::MAX
        &&& self.link_header_size <= self.data@.len()
    }

    /// The bytes of the entry: data size, link-header size, decompressed size, compressed size,
    /// class name, name, then the data.
    pub open spec fn spec_bytes(&self, e: Endian) -> Seq<u8> {
        u32_bytes(self.data@.len() as u32, e) + u32_bytes(self.link_header_size, e) + u32_bytes(
            self.decompressed_size,
            e,
        ) + u32_bytes(self.compressed_size, e) + u32_bytes(self.class_name, e) + u32_bytes(
            self.name,
            e,
        ) + self.data@
    }

    /// Reads an entry at `pos`; returns it with the position after it. It fails with
    /// `TruncatedInput` where the buffer ends before the header or the declared data, and with
    /// `SizeMismatch` where the declared link header is longer than the declared data.
    pub fn read(buf: &[u8], pos: usize, e: Endian) -> (r: Result<(Object, usize), Error>)
        requires
            pos <= buf@.len(),
        ensures
            match r {
                Ok((o, end)) => {
                    &&& read_error(rest(buf@, pos as int), e) is None
                    &&& o.wf()
                    &&& end == pos + o.spec_bytes(e).len()
                    &&& starts_with(rest(buf@, pos as int), o.spec_bytes(e))
                },
                Err(err) => read_error(rest(buf@, pos as int), e) == Some(err),
            },
    {
        let ghost t = rest(buf@, pos as int);
        if buf.len() - pos < 24 {
            return Err(Error::TruncatedInput);
        }
        let (data_size, p1) = match read_u32(buf, pos, e) { Ok(got) => got, Err(err) => return Err(err) };
        let (link_header_size, p2) = match read_u32(buf, p1, e) { Ok(got) => got, Err(err) => return Err(err) };
        let (decompressed_size, p3) = match read_u32(buf, p2, e) { Ok(got) => got, Err(err) => return Err(err) };
        let (compressed_size, p4) = match read_u32(buf, p3, e) { Ok(got) => got, Err(err) => return Err(err) };
        let (class_name, p5) = match read_u32(buf, p4, e) { Ok(got) => got, Err(err) => return Err(err) };
        let (name, p6) = match read_u32(buf, p5, e) { Ok(got) => got, Err(err) => return Err(err) };
        proof {
            lemma_u32_prefix(t, data_size, e);
            lemma_rest_rest(buf@, pos as int, 4);
            lemma_u32_prefix(rest(t, 4), link_header_size, e);
        }
        if data_size as usize > buf.len() - p6 || data_size as u64 > (buf.len() - p6) as u64 {
            return Err(Error::TruncatedInput);
        }
        if link_header_size > data_size {
            return Err(Error::SizeMismatch);
        }
        let n = data_size as usize;
        let end = p6 + n;
        let mut data: Vec<u8> = Vec::new();
        let mut i: usize = 0;
        while i < n
            invariant
                end == p6 + n,
                end <= buf@.len(),
                i <= n,
                data@ == buf@.subrange(p6 as int, p6 + i),
            decreases n - i,
        {
            data.push(buf[p6 + i]);
            i = i + 1;
            proof {
                assert(data@ =~= buf@.subrange(p6 as int, p6 + i));
            }
        }
        let o = Object { link_header_size, decompressed_size, compressed_size, class_name, name, data };
        proof {
            assert(t.subrange(0, 24 + n) =~= o.spec_bytes(e));
        }
        Ok((o, end))
    }

    /// Appends the bytes of the entry.
    pub fn write(&self, out: &mut Vec<u8>, e: Endian)
        requires
            self.wf(),
        ensures
            final(out)@ == old(out)@ + self.spec_bytes(e),
    {
        write_u32(out, self.data.len() as u32, e);
        write_u32(out, self.link_header_size, e);
        write_u32(out, self.decompressed_size, e);
        write_u32(out, self.compressed_size, e);
        write_u32(out, self.class_name, e);
        write_u32(out, self.name, e);
        write_bytes(out, &self.data);
        assert(final(out)@ =~= old(out)@ + self.spec_bytes(e));
    }

    /// The link-header part of the data.
    pub fn link_header(&self) -> (r: Vec<u8>)
        requires
            self.wf(),
        ensures
            r@ == self.data@.subrange(0, self.link_header_size as int),
    {
        copy_range(self.data.as_slice(), 0, self.link_header_size as usize)
    }

    /// The body: the data after the link header.
    pub fn body(&self) -> (r: Vec<u8>)
        requires
            self.wf(),
        ensures
            r@ == self.data@.subrange(self.link_header_size as int, self.data@.len() as int),
    {
        copy_range(self.data.as_slice(), self.link_header_size as usize, self.data.len())
    }
}

/// The bytes of the entries `os`, one after another.
pub open spec fn objects_bytes(os: Seq<Object>, e: Endian) -> Seq<u8>
    decreases os.len(),
{
    if os.len() == 0 {
        Seq::empty()
    } else {
        objects_bytes(os.drop_last(), e) + os.last().spec_bytes(e)
    }
}

pub open spec fn all_wf(os: Seq<Object>) -> bool {
    forall|i: int| 0 <= i < os.len() ==> (#[trigger] os[i]).wf()
}

/// Reads `count` entries one after another from `pos`, as a pool lists them. On failure it names
/// the entry that could not be read, and why: all before it were read.
pub fn read_objects(buf: &[u8], pos: usize, count: usize, e: Endian) -> (r: Result<
    (Vec<Object>, usize),
    (usize, Error),
>)
    requires
        pos <= buf@.len(),
    ensures
        match r {
            Ok((os, end)) => {
                &&& os@.len() == count
                &&& all_wf(os@)
                &&& end == pos + objects_bytes(os@, e).len()
                &&& starts_with(rest(buf@, pos as int), objects_bytes(os@, e))
            },
            Err((i, err)) => i < count && exists|os: Seq<Object>|
                {
                    &&& os.len() == i
                    &&& all_wf(os)
                    &&& starts_with(rest(buf@, pos as int), #[trigger] objects_bytes(os, e))
                    &&& read_error(rest(buf@, pos + objects_bytes(os, e).len()), e) == Some(err)
                },
        },
{
    let mut os: Vec<Object> = Vec::new();
    let mut p: usize = pos;
    let mut i: usize = 0;
    let ghost t = rest(buf@, pos as int);
    proof {
        assert(t.subrange(0, 0) =~= Seq::<u8>::empty());
    }
    while i < count
        invariant
            pos <= p <= buf@.len(),
            t == rest(buf@, pos as int),
            i <= count,
            os@.len() == i,
            all_wf(os@),
            p == pos + objects_bytes(os@, e).len(),
            starts_with(t, objects_bytes(os@, e)),
        decreases count - i,
    {
        let ghost done = os@;
        proof {
            lemma_rest_rest(buf@, pos as int, p - pos);
        }
        match Object::read(buf, p, e) {
            Ok((o, q)) => {
                let ghost ob = o.spec_bytes(e);
                os.push(o);
                proof {
                    assert(os@.drop_last() =~= done);
                    lemma_starts_with_concat(t, objects_bytes(done, e), ob);
                    assert forall|j: int| 0 <= j < os@.len() implies (#[trigger] os@[j]).wf() by {
                        if j < i {
                            assert(os@[j] == done[j]);
                        }
                    }
                }
                p = q;
            },
            Err(err) => {
                proof {
                    assert(objects_bytes(done, e) == objects_bytes(done, e));
                }
                return Err((i, err));
            },
        }
        i = i + 1;
    }
    Ok((os, p))
}

/// Appends the entries `os`, one after another.
pub fn write_objects(out: &mut Vec<u8>, os: &Vec<Object>, e: Endian)
    requires
        all_wf(os@),
    ensures
        final(out)@ == old(out)@ + objects_bytes(os@, e),
{
    let mut i: usize = 0;
    while i < os.len()
        invariant
            i <= os@.len(),
            all_wf(os@),
            out@ == old(out)@ + objects_bytes(os@.take(i as int), e),
        decreases os@.len() - i,
    {
        proof {
            assert(os@[i as int].wf());
        }
        os[i].write(out, e);
        proof {
            assert(os@.take(i + 1).drop_last() =~= os@.take(i as int));
        }
        i = i + 1;
        proof {
            assert(out@ =~= old(out)@ + objects_bytes(os@.take(i as int), e));
        }
    }
    assert(os@.take(i as int) =~= os@);
}

} // verus!
