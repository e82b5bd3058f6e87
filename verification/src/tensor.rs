//! Tensors: scalars in row-major order together with the lengths of their dimensions.

use vstd::prelude::*;

verus! {

/// The number of entries of a tensor with the dimensions `shape`.
pub open spec fn entries(shape: Seq<usize>) -> nat
    decreases shape.len(),
{
    if shape.len() == 0 {
        1
    } else {
        entries(shape.drop_last()) * shape.last() as nat
    }
}

/// The number of entries can be computed from the left without overflow.
pub open spec fn countable(shape: Seq<usize>) -> bool {
    forall|k: int| 0 <= k <= shape.len() ==> #[trigger] entries(shape.take(k)) <= usize::MAX
}

pub struct Tensor<T> {
    pub data: Vec<T>,
    pub shape: Vec<usize>,
}

pub proof fn lemma_entries_1(a: usize)
    ensures
        entries(seq![a]) == a,
{
    assert(seq![a].drop_last() =~= Seq::<usize>::empty());
    assert(entries(seq![a]) == entries(Seq::<usize>::empty()) * a as nat);
    assert(1 * a as nat == a);
}

pub proof fn lemma_entries_2(a: usize, b: usize)
    ensures
        entries(seq![a, b]) == a * b,
{
    lemma_entries_1(a);
    assert(seq![a, b].drop_last() =~= seq![a]);
}

pub proof fn lemma_entries_3(a: usize, b: usize, c: usize)
    ensures
        entries(seq![a, b, c]) == a * b * c,
{
    lemma_entries_2(a, b);
    assert(seq![a, b, c].drop_last() =~= seq![a, b]);
}

pub proof fn lemma_entries_4(a: usize, b: usize, c: usize, d: usize)
    ensures
        entries(seq![a, b, c, d]) == a * b * c * d,
{
    lemma_entries_3(a, b, c);
    assert(seq![a, b, c, d].drop_last() =~= seq![a, b, c]);
}

pub proof fn lemma_countable_2(a: usize, b: usize)
    requires
        a * b <= usize::MAX,
    ensures
        countable(seq![a, b]),
        entries(seq![a, b]) == a * b,
{
    lemma_entries_1(a);
    lemma_entries_2(a, b);
    let s = seq![a, b];
    assert forall|k: int| 0 <= k <= s.len() implies #[trigger] entries(s.take(k)) <= usize::MAX by {
        if k == 0 {
            assert(entries(s.take(0)) == 1);
        } else if k == 1 {
            assert(s.take(1) =~= seq![a]);
        } else {
            assert(s.take(2) =~= s);
        }
    }
}

pub proof fn lemma_countable_4(a: usize, b: usize, c: usize, d: usize)
    requires
        c > 0,
        d > 0,
        a * b * c * d <= usize::MAX,
    ensures
        countable(seq![a, b, c, d]),
        entries(seq![a, b, c, d]) == a * b * c * d,
{
    lemma_entries_1(a);
    lemma_entries_2(a, b);
    lemma_entries_3(a, b, c);
    lemma_entries_4(a, b, c, d);
    let s = seq![a, b, c, d];
    let ab = a * b;
    let abc = ab * c;
    assert(0 <= ab) by (nonlinear_arith)
        requires
            ab == a * b,
    ;
    assert(ab <= abc) by (nonlinear_arith)
        requires
            abc == ab * c,
            0 <= ab,
            0 < c,
    ;
    assert(abc <= abc * d) by (nonlinear_arith)
        requires
            0 <= abc,
            0 < d,
    ;
    assert forall|k: int| 0 <= k <= s.len() implies #[trigger] entries(s.take(k)) <= usize::MAX by {
        if k == 0 {
            assert(entries(s.take(0)) == 1);
        } else if k == 1 {
            assert(s.take(1) =~= seq![a]);
        } else if k == 2 {
            assert(s.take(2) =~= seq![a, b]);
        } else if k == 3 {
            assert(s.take(3) =~= seq![a, b, c]);
        } else {
            assert(s.take(4) =~= s);
        }
    }
}

pub proof fn lemma_countable_1(a: usize)
    ensures
        countable(seq![a]),
        entries(seq![a]) == a,
{
    lemma_entries_1(a);
    let s = seq![a];
    assert forall|k: int| 0 <= k <= s.len() implies #[trigger] entries(s.take(k)) <= usize::MAX by {
        if k == 0 {
            assert(entries(s.take(0)) == 1);
        } else {
            assert(s.take(1) =~= s);
        }
    }
}

/// The number of entries of a tensor with the dimensions `shape`.
pub fn count_entries(shape: &Vec<usize>) -> (n: usize)
    requires
        countable(shape@),
    ensures
        n == entries(shape@),
{
    let mut n: usize = 1;
    assert(entries(shape@.take(0)) == 1);
    for k in 0..shape.len()
        invariant
            n == entries(shape@.take(k as int)),
            countable(shape@),
    {
        assert(shape@.take(k + 1).drop_last() =~= shape@.take(k as int));
        assert(entries(shape@.take(k + 1)) <= usize::MAX);
        n = n * shape[k];
    }
    assert(shape@.take(shape@.len() as int) =~= shape@);
    n
}

impl<T> Tensor<T> {
    /// There are as many entries as the shape says.
    pub open spec fn wf(&self) -> bool {
        self.data@.len() == entries(self.shape@)
    }

    /// The tensor with the given entries and dimensions.
    pub fn new(data: Vec<T>, shape: &Vec<usize>) -> (t: Tensor<T>)
        requires
            data@.len() == entries(shape@),
        ensures
            t.wf(),
            t.data == data,
            t.shape@ == shape@,
    {
        Tensor { data, shape: shape.clone() }
    }

    /// The entries in row-major order.
    pub fn data(&self) -> (d: &[T])
        ensures
            d@ == self.data@,
    {
        self.data.as_slice()
    }

    /// The lengths of the dimensions.
    pub fn shape(&self) -> (s: &Vec<usize>)
        ensures
            *s == self.shape,
    {
        &self.shape
    }

    /// The number of entries.
    pub fn size(&self) -> (n: usize)
        ensures
            n == self.data@.len(),
    {
        self.data.len()
    }

    /// Gives the tensor other dimensions and leaves its entries as they are.
    pub fn reshape(&mut self, shape: &Vec<usize>)
        requires
            old(self).wf(),
            entries(shape@) == old(self).data@.len(),
        ensures
            final(self).wf(),
            final(self).data == old(self).data,
            final(self).shape@ == shape@,
    {
        self.shape = shape.clone();
    }
}

impl<T: Copy> Tensor<T> {
    /// A tensor with the same entries and dimensions.
    pub fn duplicate(&self) -> (t: Tensor<T>)
        ensures
            t.data@ == self.data@,
            t.shape@ == self.shape@,
    {
        let mut data: Vec<T> = Vec::with_capacity(self.data.len());
        for i in 0..self.data.len()
            invariant
                data@ == self.data@.take(i as int),
        {
            data.push(self.data[i]);
        }
        assert(data@ =~= self.data@);
        Tensor { data, shape: self.shape.clone() }
    }

    /// The tensor whose entries start at `start`, with the given dimensions.
    pub fn slice(&self, start: usize, shape: &Vec<usize>) -> (t: Tensor<T>)
        requires
            countable(shape@),
            start + entries(shape@) <= self.data@.len(),
        ensures
            t.wf(),
            t.data@ == self.data@.subrange(start as int, start + entries(shape@)),
            t.shape@ == shape@,
    {
        let n = count_entries(shape);
        let size = self.data.len();
        let mut data: Vec<T> = Vec::with_capacity(n);
        for i in 0..n
            invariant
                size == self.data@.len(),
                start + n <= size,
                data@ == self.data@.subrange(start as int, start + i),
        {
            data.push(self.data[start + i]);
        }
        Tensor { data, shape: shape.clone() }
    }
}

impl<T: Copy + Default> Tensor<T> {
    /// The tensor with the given dimensions that holds the type's default value everywhere.
    pub fn default(shape: &Vec<usize>) -> (t: Tensor<T>)
        requires
            countable(shape@),
        ensures
            t.wf(),
            t.shape@ == shape@,
            exists|z: T| #[trigger]
                is_default(z) && t.data@ == Seq::new(entries(shape@), |i: int| z),
    {
        let n = count_entries(shape);
        let z = T::default();
        let mut data: Vec<T> = Vec::with_capacity(n);
        for i in 0..n
            invariant
                data@ == Seq::new(i as nat, |i: int| z),
        {
            data.push(z);
        }
        assert(is_default(z));
        Tensor { data, shape: shape.clone() }
    }
}

/// `z` can be the type's default value.
pub open spec fn is_default<T: Default>(z: T) -> bool {
    call_ensures(T::default, (), z)
}

} // verus!
