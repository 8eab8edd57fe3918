use vstd::prelude::*;

use indexmap::IndexMap;

use crate::binary::{
    dyn_words_bytes, dyn_words_wf, read_dyn_words, rest, starts_with, u32_bytes, words_bytes,
    write_u32, Endian,
};
use crate::error::Error;

verus! {

#[verifier::external_type_specification]
#[verifier::external_body]
#[verifier::reject_recursive_types(K)]
#[verifier::reject_recursive_types(V)]
#[verifier::reject_recursive_types(S)]
pub struct ExIndexMap<K, V, S>(IndexMap<K, V, S>);

/// The entries of an insertion-ordered map, in their order.
pub uninterp spec fn index_map_entries(m: IndexMap<u32, u32>) -> Seq<(u32, u32)>;

/// The place of the entry with key `k` in `es`, if any.
pub open spec fn has_key(es: Seq<(u32, u32)>, k: u32) -> bool {
    exists|i: int| 0 <= i < es.len() && (#[trigger] es[i]).0 == k
}

/// The entries after inserting `(k, v)`: an existing key keeps its place and takes the new value,
/// a new key goes last.
pub open spec fn insert_entry(es: Seq<(u32, u32)>, k: u32, v: u32) -> Seq<(u32, u32)> {
    if has_key(es, k) {
        let i = choose|i: int| 0 <= i < es.len() && (#[trigger] es[i]).0 == k;
        es.update(i, (k, v))
    } else {
        es.push((k, v))
    }
}

/// Relies on `IndexMap::new`: a new map holds no entries.
#[verifier::external_body]
fn index_map_new() -> (r: IndexMap<u32, u32>)
    ensures
        index_map_entries(r) == Seq::<(u32, u32)>::empty(),
{
    IndexMap::new()
}

/// Relies on `IndexMap::insert`: an existing key keeps its place in the order and takes the new
/// value; a new key is inserted last.
#[verifier::external_body]
fn index_map_insert(m: &mut IndexMap<u32, u32>, k: u32, v: u32)
    ensures
        index_map_entries(*final(m)) == insert_entry(index_map_entries(*old(m)), k, v),
{
    m.insert(k, v);
}

/// Relies on `IndexMap::len`: the number of entries.
#[verifier::external_body]
fn index_map_len(m: &IndexMap<u32, u32>) -> (r: usize)
    ensures
        r == index_map_entries(*m).len(),
{
    m.len()
}

/// Relies on `IndexMap::get_index`: the entry at a place in the order, if the place is there.
#[verifier::external_body]
fn index_map_get_index(m: &IndexMap<u32, u32>, i: usize) -> (r: Option<(u32, u32)>)
    ensures
        i < index_map_entries(*m).len() ==> r == Some(index_map_entries(*m)[i as int]),
        i >= index_map_entries(*m).len() ==> r is None,
{
    m.get_index(i).map(|(k, v)| (*k, *v))
}

/// The pairs that the words `w` hold, two words each: key, then value.
pub open spec fn pairs_of(w: Seq<u32>) -> Seq<(u32, u32)> {
    Seq::new(w.len() / 2, |i: int| (w[2 * i], w[2 * i + 1]))
}

/// The words of the pairs `es`: key, then value, for each.
pub open spec fn words_of(es: Seq<(u32, u32)>) -> Seq<u32> {
    Seq::new(2 * es.len(), |j: int| if j % 2 == 0 { es[j / 2].0 } else { es[j / 2].1 })
}

/// The entries of a map after inserting the pairs `ps` in order into an empty one.
pub open spec fn insert_all(ps: Seq<(u32, u32)>) -> Seq<(u32, u32)>
    decreases ps.len(),
{
    if ps.len() == 0 {
        Seq::empty()
    } else {
        insert_entry(insert_all(ps.drop_last()), ps.last().0, ps.last().1)
    }
}

/// No key stands twice in `ps`.
pub open spec fn keys_distinct(ps: Seq<(u32, u32)>) -> bool {
    forall|i: int, j: int| 0 <= i < j < ps.len() ==> (#[trigger] ps[i]).0 != (#[trigger] ps[j]).0
}

/// An insertion-ordered map read from the wire: a count, then that many key-value pairs.
#[derive(Debug)]
pub struct BffMap {
    map: IndexMap<u32, u32>,
}

impl BffMap {
    /// The entries, in their order.
    pub closed spec fn entries(&self) -> Seq<(u32, u32)> {
        index_map_entries(self.map)
    }

    /// The map that holds the entries of `map`.
    pub fn from(map: IndexMap<u32, u32>) -> (r: BffMap)
        ensures
            r.entries() == index_map_entries(map),
    {
        BffMap { map }
    }

    /// Reads a map at `pos`: the pairs go into the map in their order, a repeated key keeping its
    /// first place and taking the last value. Fails with `TruncatedInput` exactly where no count
    /// and pairs begin the buffer there.
    pub fn read(buf: &[u8], pos: usize, e: Endian) -> (r: Result<(BffMap, usize), Error>)
        requires
            pos <= buf@.len(),
        ensures
            match r {
                Ok((m, end)) => exists|w: Seq<u32>|
                    {
                        &&& dyn_words_wf(w, 2)
                        &&& end == pos + dyn_words_bytes(w, 2, e).len()
                        &&& starts_with(rest(buf@, pos as int), #[trigger] dyn_words_bytes(w, 2, e))
                        &&& m.entries() == insert_all(pairs_of(w))
                    },
                Err(err) => err == Error::TruncatedInput && forall|w: Seq<u32>|
                    dyn_words_wf(w, 2) ==> !starts_with(
                        rest(buf@, pos as int),
                        #[trigger] dyn_words_bytes(w, 2, e),
                    ),
            },
    {
        let (w, end) = match read_dyn_words(buf, pos, 2, e) {
            Ok(got) => got,
            Err(err) => return Err(err),
        };
        let mut map = index_map_new();
        let n = w.len() / 2;
        let mut i: usize = 0;
        proof {
            assert(pairs_of(w@).take(0) =~= Seq::<(u32, u32)>::empty());
        }
        while i < n
            invariant
                n == w@.len() / 2,
                i <= n,
                index_map_entries(map) == insert_all(pairs_of(w@).take(i as int)),
            decreases n - i,
        {
            index_map_insert(&mut map, w[2 * i], w[2 * i + 1]);
            proof {
                let ps = pairs_of(w@).take(i + 1);
                assert(ps.drop_last() =~= pairs_of(w@).take(i as int));
                assert(ps.last() == (w@[2 * i], w@[2 * i + 1]));
            }
            i = i + 1;
        }
        proof {
            assert(pairs_of(w@).take(n as int) =~= pairs_of(w@));
        }
        Ok((BffMap { map }, end))
    }

    /// The number of entries.
    pub fn len(&self) -> (r: usize)
        ensures
            r == self.entries().len(),
    {
        index_map_len(&self.map)
    }

    /// The entry at place `i` in the order, if there is one.
    pub fn get_index(&self, i: usize) -> (r: Option<(u32, u32)>)
        ensures
            i < self.entries().len() ==> r == Some(self.entries()[i as int]),
            i >= self.entries().len() ==> r is None,
    {
        index_map_get_index(&self.map, i)
    }

    /// Appends the map: the number of entries, then each key and value in order.
    pub fn write(&self, out: &mut Vec<u8>, e: Endian)
        requires
            self.entries().len() <= u32::MAX,
        ensures
            final(out)@ == old(out)@ + dyn_words_bytes(words_of(self.entries()), 2, e),
    {
        let n = index_map_len(&self.map);
        write_u32(out, n as u32, e);
        let ghost es = self.entries();
        let ghost head = out@;
        let mut i: usize = 0;
        proof {
            assert(words_of(es).take(0) =~= Seq::<u32>::empty());
        }
        while i < n
            invariant
                n == es.len(),
                es == self.entries(),
                i <= n,
                out@ == head + words_bytes(words_of(es).take(2 * i), e),
            decreases n - i,
        {
            let (k, v) = match index_map_get_index(&self.map, i) {
                Some(kv) => kv,
                None => (0, 0),
            };
            write_u32(out, k, e);
            write_u32(out, v, e);
            proof {
                let t = words_of(es).take(2 * i + 2);
                assert(t.drop_last().drop_last() =~= words_of(es).take(2 * i));
                assert(t.drop_last().last() == k);
                assert(t.last() == v);
                assert(t.drop_last() =~= words_of(es).take(2 * i + 1));
                assert(words_bytes(t.drop_last(), e) == words_bytes(t.drop_last().drop_last(), e)
                    + u32_bytes(k, e));
                assert(words_bytes(t, e) == words_bytes(t.drop_last(), e) + u32_bytes(v, e));
                assert(out@ =~= head + words_bytes(t, e));
            }
            i = i + 1;
        }
        proof {
            assert(words_of(es).take(2 * n) =~= words_of(es));
            assert(words_of(es).len() / 2 == n);
        }
    }
}

pub proof fn lemma_insert_all_distinct(ps: Seq<(u32, u32)>)
    requires
        keys_distinct(ps),
    ensures
        insert_all(ps) == ps,
    decreases ps.len(),
{
    if ps.len() > 0 {
        let p0 = ps.drop_last();
        assert(keys_distinct(p0)) by {
            assert forall|i: int, j: int| 0 <= i < j < p0.len() implies (#[trigger] p0[i]).0
                != (#[trigger] p0[j]).0 by {
                assert(p0[i] == ps[i] && p0[j] == ps[j]);
            }
        }
        lemma_insert_all_distinct(p0);
        assert(!has_key(p0, ps.last().0)) by {
            if has_key(p0, ps.last().0) {
                let i = choose|i: int| 0 <= i < p0.len() && (#[trigger] p0[i]).0 == ps.last().0;
                assert(p0[i] == ps[i]);
            }
        }
        assert(p0.push(ps.last()) =~= ps);
    }
}

/// Round trip: a map read from pairs whose keys are distinct writes back to the same bytes.
pub proof fn lemma_map_round_trip(w: Seq<u32>, e: Endian)
    requires
        dyn_words_wf(w, 2),
        keys_distinct(pairs_of(w)),
    ensures
        insert_all(pairs_of(w)).len() <= u32::MAX,
        dyn_words_bytes(words_of(insert_all(pairs_of(w))), 2, e) == dyn_words_bytes(w, 2, e),
{
    lemma_insert_all_distinct(pairs_of(w));
    assert(words_of(pairs_of(w)) =~= w);
}

} // verus!
