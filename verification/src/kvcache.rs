//! The keys and values of the positions that a model has already seen.

use crate::tensor::{countable, entries, is_default, lemma_countable_2, Tensor};
use vstd::prelude::*;

verus! {

/// `s` holds the type's default value everywhere.
pub open spec fn blank<T: Default>(s: Seq<T>) -> bool {
    exists|z: T| #[trigger] is_default(z) && s == Seq::new(s.len(), |i: int| z)
}

/// `s` with the entries from `start` on replaced by `values`.
pub open spec fn overwritten<T>(s: Seq<T>, start: int, values: Seq<T>) -> Seq<T> {
    s.subrange(0, start) + values + s.subrange(start + values.len(), s.len() as int)
}

/// For each layer, room for the keys and the values of `max_seq_len` positions, each a row of
/// length `dim`. The first `length` rows are in use.
pub struct KVCache<T> {
    pub k_cache: Vec<Tensor<T>>,
    pub v_cache: Vec<Tensor<T>>,
    pub max_seq_len: usize,
    pub dim: usize,
    pub length: usize,
}

fn overwrite<T: Copy>(data: &mut Vec<T>, start: usize, values: &Vec<T>)
    requires
        start + values@.len() <= old(data)@.len(),
    ensures
        final(data)@ == overwritten(old(data)@, start as int, values@),
{
    let size = data.len();
    let ghost d0 = data@;
    for i in 0..values.len()
        invariant
            size == d0.len(),
            data@.len() == size,
            start + values@.len() <= size,
            forall|k: int| 0 <= k < size && (k < start || start + i <= k) ==> data@[k] == d0[k],
            forall|k: int| start <= k < start + i ==> data@[k] == values@[k - start],
    {
        data.set(start + i, values[i]);
    }
    assert(data@ =~= overwritten(d0, start as int, values@));
}

impl<T> KVCache<T> {
    /// A tensor of the cache is as large as the cache says.
    pub open spec fn fits(&self, t: Tensor<T>) -> bool {
        &&& t.wf()
        &&& t.shape@ == seq![self.max_seq_len, self.dim]
        &&& t.data@.len() == self.max_seq_len * self.dim
    }

    pub open spec fn wf(&self) -> bool {
        &&& self.v_cache@.len() == self.k_cache@.len()
        &&& self.length <= self.max_seq_len
        &&& forall|l: int| 0 <= l < self.k_cache@.len() ==> self.fits(#[trigger] self.k_cache@[l])
        &&& forall|l: int| 0 <= l < self.k_cache@.len() ==> self.fits(#[trigger] self.v_cache@[l])
    }

    /// The caches agree but for the number of rows in use and what the rows hold.
    pub open spec fn same_size(&self, other: KVCache<T>) -> bool {
        &&& self.k_cache@.len() == other.k_cache@.len()
        &&& self.max_seq_len == other.max_seq_len
        &&& self.dim == other.dim
    }

    /// What is stored for the keys of layer `l`.
    pub open spec fn keys(&self, l: int) -> Seq<T> {
        self.k_cache@[l].data@
    }

    /// What is stored for the values of layer `l`.
    pub open spec fn values(&self, l: int) -> Seq<T> {
        self.v_cache@[l].data@
    }

    /// The number of rows in use.
    pub fn len(&self) -> (n: usize)
        ensures
            n == self.length,
    {
        self.length
    }

    /// Takes `seq_len` more rows into use.
    pub fn increment(&mut self, seq_len: usize)
        requires
            old(self).wf(),
            old(self).length + seq_len <= old(self).max_seq_len,
        ensures
            final(self).wf(),
            *final(self) == (KVCache {
                length: (old(self).length + seq_len) as usize,
                ..*old(self)
            }),
    {
        self.length = self.length + seq_len;
    }
}

impl<T: Copy> KVCache<T> {
    /// The keys of layer `layer` from row `start` on, as far as the rows are in use.
    pub fn k_cache(&self, layer: usize, start: usize) -> (t: Tensor<T>)
        requires
            self.wf(),
            layer < self.k_cache@.len(),
            start <= self.length,
        ensures
            t.wf(),
            t.shape@ == seq![(self.length - start) as usize, self.dim],
            t.data@ == self.keys(layer as int).subrange(
                start * self.dim,
                self.length * self.dim,
            ),
    {
        let size = self.k_cache[layer].size();
        proof {
            assert(self.fits(self.k_cache@[layer as int]));
            assert(size == self.max_seq_len * self.dim);
            lemma_rows(start as int, self.length as int, self.max_seq_len as int, self.dim as int);
            lemma_countable_2((self.length - start) as usize, self.dim);
        }
        let rows = self.length - start;
        self.k_cache[layer].slice(start * self.dim, &vec![rows, self.dim])
    }

    /// The values of layer `layer` from row `start` on, as far as the rows are in use.
    pub fn v_cache(&self, layer: usize, start: usize) -> (t: Tensor<T>)
        requires
            self.wf(),
            layer < self.k_cache@.len(),
            start <= self.length,
        ensures
            t.wf(),
            t.shape@ == seq![(self.length - start) as usize, self.dim],
            t.data@ == self.values(layer as int).subrange(
                start * self.dim,
                self.length * self.dim,
            ),
    {
        let size = self.v_cache[layer].size();
        proof {
            assert(self.fits(self.v_cache@[layer as int]));
            assert(size == self.max_seq_len * self.dim);
            lemma_rows(start as int, self.length as int, self.max_seq_len as int, self.dim as int);
            lemma_countable_2((self.length - start) as usize, self.dim);
        }
        let rows = self.length - start;
        self.v_cache[layer].slice(start * self.dim, &vec![rows, self.dim])
    }

    /// Stores the keys and values of the rows from `start` on for layer `layer`.
    pub fn store(&mut self, layer: usize, start: usize, k: &Tensor<T>, v: &Tensor<T>)
        requires
            old(self).wf(),
            layer < old(self).k_cache@.len(),
            start <= old(self).length,
            k.data@.len() == (old(self).length - start) * old(self).dim,
            v.data@.len() == (old(self).length - start) * old(self).dim,
        ensures
            final(self).wf(),
            final(self).same_size(*old(self)),
            final(self).length == old(self).length,
            final(self).keys(layer as int) == overwritten(
                old(self).keys(layer as int),
                start * old(self).dim,
                k.data@,
            ),
            final(self).values(layer as int) == overwritten(
                old(self).values(layer as int),
                start * old(self).dim,
                v.data@,
            ),
            forall|l: int|
                0 <= l < old(self).k_cache@.len() && l != layer ==> final(self).k_cache@[l]
                    == old(self).k_cache@[l],
            forall|l: int|
                0 <= l < old(self).k_cache@.len() && l != layer ==> final(self).v_cache@[l]
                    == old(self).v_cache@[l],
    {
        let size = self.k_cache[layer].size();
        proof {
            assert(self.fits(self.k_cache@[layer as int]));
            assert(self.fits(self.v_cache@[layer as int]));
            assert(size == self.max_seq_len * self.dim);
            lemma_rows(start as int, self.length as int, self.max_seq_len as int, self.dim as int);
        }
        let at = start * self.dim;
        overwrite(&mut self.k_cache[layer].data, at, &k.data);
        overwrite(&mut self.v_cache[layer].data, at, &v.data);
    }
}

/// The rows from `start` up to `end` lie inside the storage.
proof fn lemma_rows(start: int, end: int, max: int, dim: int)
    requires
        0 <= start <= end <= max,
        0 <= dim,
    ensures
        0 <= start * dim,
        start * dim + (end - start) * dim == end * dim,
        end * dim <= max * dim,
        0 <= (end - start) * dim <= max * dim,
{
    assert(start * dim + (end - start) * dim == end * dim) by (nonlinear_arith);
    assert(0 <= start * dim) by (nonlinear_arith)
        requires
            0 <= start,
            0 <= dim,
    ;
    assert(0 <= (end - start) * dim) by (nonlinear_arith)
        requires
            0 <= end - start,
            0 <= dim,
    ;
    assert(end * dim <= max * dim) by (nonlinear_arith)
        requires
            end <= max,
            0 <= dim,
    ;
}

impl<T: Copy + Default> KVCache<T> {
    /// A cache for `n_layers` layers with `init_len` rows in use, all of them blank.
    pub fn new(n_layers: usize, max_seq_len: usize, dim: usize, init_len: usize) -> (c: KVCache<T>)
        requires
            max_seq_len * dim <= usize::MAX,
            init_len <= max_seq_len,
        ensures
            c.wf(),
            c.k_cache@.len() == n_layers,
            c.max_seq_len == max_seq_len,
            c.dim == dim,
            c.length == init_len,
            forall|l: int| 0 <= l < n_layers ==> blank(#[trigger] c.keys(l)),
            forall|l: int| 0 <= l < n_layers ==> blank(#[trigger] c.values(l)),
    {
        let shape = vec![max_seq_len, dim];
        proof {
            lemma_countable_2(max_seq_len, dim);
        }
        let mut k: Vec<Tensor<T>> = Vec::with_capacity(n_layers);
        let mut v: Vec<Tensor<T>> = Vec::with_capacity(n_layers);
        for l in 0..n_layers
            invariant
                shape@ == seq![max_seq_len, dim],
                countable(shape@),
                entries(shape@) == max_seq_len * dim,
                k@.len() == l,
                v@.len() == l,
                forall|i: int|
                    0 <= i < l ==> (#[trigger] k@[i]).wf() && k@[i].shape@ == shape@ && blank(
                        k@[i].data@,
                    ),
                forall|i: int|
                    0 <= i < l ==> (#[trigger] v@[i]).wf() && v@[i].shape@ == shape@ && blank(
                        v@[i].data@,
                    ),
        {
            let kt = Tensor::<T>::default(&shape);
            let vt = Tensor::<T>::default(&shape);
            assert(blank(kt.data@));
            assert(blank(vt.data@));
            k.push(kt);
            v.push(vt);
        }
        KVCache { k_cache: k, v_cache: v, max_seq_len, dim, length: init_len }
    }
}

} // verus!
