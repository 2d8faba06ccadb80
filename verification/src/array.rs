//! Fixed-shape multi-dimensional arrays, stored row-major in one flat store.

use vstd::prelude::*;
use crate::error::Fault;
use crate::value::{ElementKind, Value};

verus! {

/// Whether every dimension is at least one.
pub open spec fn positive(dims: Seq<i64>) -> bool {
    forall|k: int| 0 <= k < dims.len() ==> #[trigger] dims[k] >= 1
}

/// The number of slots of an array with dimensions `dims`: their product.
pub open spec fn volume(dims: Seq<i64>) -> int
    decreases dims.len(),
{
    if dims.len() == 0 {
        1
    } else {
        volume(dims.drop_last()) * dims.last()
    }
}

/// Whether `indices` names a slot of an array with dimensions `dims`: one
/// index for each dimension, each of them from zero up to, and without, the
/// size of its dimension.
pub open spec fn in_bounds(dims: Seq<i64>, indices: Seq<i64>) -> bool {
    &&& indices.len() == dims.len()
    &&& forall|k: int| 0 <= k < dims.len() ==> 0 <= #[trigger] indices[k] < dims[k]
}

/// The row-major position of slot `indices`: the last index moves fastest.
pub open spec fn offset(dims: Seq<i64>, indices: Seq<i64>) -> int
    decreases dims.len(),
{
    if dims.len() == 0 {
        0
    } else {
        offset(dims.drop_last(), indices.drop_last()) * dims.last() + indices.last()
    }
}

/// The volume of positive dimensions is at least one.
pub proof fn lemma_volume_positive(dims: Seq<i64>)
    requires
        positive(dims),
    ensures
        volume(dims) >= 1,
    decreases dims.len(),
{
    if dims.len() > 0 {
        lemma_volume_positive(dims.drop_last());
        assert(dims.last() >= 1);
        assert(volume(dims.drop_last()) * dims.last() >= 1) by (nonlinear_arith)
            requires
                volume(dims.drop_last()) >= 1,
                dims.last() >= 1,
        ;
    }
}

/// A prefix of positive dimensions has no more slots than the whole.
pub proof fn lemma_volume_prefix(dims: Seq<i64>, k: int)
    requires
        positive(dims),
        0 <= k <= dims.len(),
    ensures
        1 <= volume(dims.take(k)) <= volume(dims),
    decreases dims.len() - k,
{
    lemma_volume_positive(dims.take(k));
    if k < dims.len() {
        lemma_volume_prefix(dims, k + 1);
        let longer = dims.take(k + 1);
        assert(longer.drop_last() =~= dims.take(k));
        assert(longer.last() == dims[k]);
        assert(volume(dims.take(k)) <= volume(dims.take(k)) * dims[k]) by (nonlinear_arith)
            requires
                volume(dims.take(k)) >= 1,
                dims[k] >= 1,
        ;
    } else {
        assert(dims.take(k) =~= dims);
    }
}

/// Every slot that is in bounds has a position inside the flat store.
pub proof fn lemma_offset_in_volume(dims: Seq<i64>, indices: Seq<i64>)
    requires
        in_bounds(dims, indices),
    ensures
        0 <= offset(dims, indices) < volume(dims),
    decreases dims.len(),
{
    if dims.len() == 0 {
    } else {
        let d = dims.drop_last();
        let i = indices.drop_last();
        assert(in_bounds(d, i));
        lemma_offset_in_volume(d, i);
        let o = offset(d, i);
        let v = volume(d);
        let n = dims.last();
        let j = indices.last();
        assert(0 <= j < n);
        assert(0 <= o * n + j < v * n) by (nonlinear_arith)
            requires
                0 <= o < v,
                0 <= j < n,
        ;
    }
}

/// Two slots that are in bounds and share a position are the same slot.
pub proof fn lemma_offset_injective(dims: Seq<i64>, a: Seq<i64>, b: Seq<i64>)
    requires
        in_bounds(dims, a),
        in_bounds(dims, b),
        offset(dims, a) == offset(dims, b),
    ensures
        a == b,
    decreases dims.len(),
{
    if dims.len() == 0 {
        assert(a =~= b);
    } else {
        let d = dims.drop_last();
        let n = dims.last();
        assert(in_bounds(d, a.drop_last()));
        assert(in_bounds(d, b.drop_last()));
        let oa = offset(d, a.drop_last());
        let ob = offset(d, b.drop_last());
        assert(0 <= a.last() < n && 0 <= b.last() < n);
        assert(oa == ob && a.last() == b.last()) by (nonlinear_arith)
            requires
                oa * n + a.last() == ob * n + b.last(),
                0 <= a.last() < n,
                0 <= b.last() < n,
        ;
        lemma_offset_injective(d, a.drop_last(), b.drop_last());
        assert(a =~= a.drop_last().push(a.last()));
        assert(b =~= b.drop_last().push(b.last()));
    }
}

/// An array: the kind of its elements, its dimensions, and its slots.
#[derive(Debug)]
pub struct ArrayObject {
    kind: ElementKind,
    dims: Vec<i64>,
    cells: Vec<Value>,
}

impl View for ArrayObject {
    type V = Seq<Value>;

    /// The slots in row-major order.
    closed spec fn view(&self) -> Seq<Value> {
        self.cells@
    }
}

impl ArrayObject {
    /// The kind of the elements.
    pub closed spec fn kind(self) -> ElementKind {
        self.kind
    }

    /// The dimensions, outermost first.
    pub closed spec fn shape(self) -> Seq<i64> {
        self.dims@
    }

    /// The array has at least one dimension, each dimension is positive, and
    /// there is one slot for each tuple of indices that is in bounds.
    pub open spec fn wf(self) -> bool {
        &&& self.shape().len() >= 1
        &&& positive(self.shape())
        &&& self@.len() == volume(self.shape())
    }

    /// The content of the slot that `indices` names.
    pub open spec fn at(self, indices: Seq<i64>) -> Value {
        self@[offset(self.shape(), indices)]
    }

    /// Why `indices` names no slot, if it names none: a wrong number of
    /// indices is a `DimensionMismatch`, and an index outside its dimension
    /// an `IndexOutOfRange`.
    pub open spec fn locate_fault(self, indices: Seq<i64>) -> Option<Fault> {
        if indices.len() != self.shape().len() {
            Some(Fault::DimensionMismatch)
        } else if !in_bounds(self.shape(), indices) {
            Some(Fault::IndexOutOfRange)
        } else {
            None
        }
    }
}

impl ArrayObject {
    /// Why no array with dimensions `dims` is made, if none is: there is no
    /// dimension at all; or one of them is below one, or the slots are more
    /// than the machine can address.
    pub open spec fn create_fault(dims: Seq<i64>) -> Option<Fault> {
        if dims.len() == 0 {
            Some(Fault::DimensionMismatch)
        } else if !positive(dims) || volume(dims) > usize::MAX {
            Some(Fault::IndexOutOfRange)
        } else {
            None
        }
    }

    /// A new array of the given kind and dimensions, every slot holding the
    /// default value of the kind.
    pub fn create(kind: ElementKind, dims: &Vec<i64>) -> (res: Result<ArrayObject, Fault>)
        ensures
            match res {
                Ok(a) => {
                    &&& Self::create_fault(dims@) is None
                    &&& a.wf()
                    &&& a.kind() == kind
                    &&& a.shape() == dims@
                    &&& forall|i: int| 0 <= i < a@.len() ==> a@[i] == kind.default_value()
                },
                Err(f) => Self::create_fault(dims@) == Some(f),
            },
    {
        let n: usize = dims.len();
        if n == 0 {
            return Err(Fault::DimensionMismatch);
        }
        let mut total: usize = 1;
        let mut own: Vec<i64> = Vec::new();
        let mut k: usize = 0;
        while k < n
            invariant
                n == dims.len(),
                k <= n,
                positive(dims@.take(k as int)),
                total == volume(dims@.take(k as int)),
                own@ == dims@.take(k as int),
            decreases n - k,
        {
            let d: i64 = dims[k];
            if d < 1 {
                return Err(Fault::IndexOutOfRange);
            }
            proof {
                let longer = dims@.take(k + 1);
                assert(longer.drop_last() =~= dims@.take(k as int));
                assert(longer.last() == d);
                assert(positive(longer)) by {
                    assert forall|j: int| 0 <= j < longer.len() implies #[trigger] longer[j] >= 1 by {
                        if j < k {
                            assert(dims@.take(k as int)[j] >= 1);
                        }
                    }
                }
                if positive(dims@) {
                    lemma_volume_prefix(dims@, k + 1);
                }
                lemma_volume_positive(dims@.take(k as int));
                assert(total * d >= d) by (nonlinear_arith)
                    requires
                        total >= 1,
                        d >= 1,
                ;
            }
            if d as u64 > usize::MAX as u64 {
                return Err(Fault::IndexOutOfRange);
            }
            match total.checked_mul(d as usize) {
                None => {
                    return Err(Fault::IndexOutOfRange);
                },
                Some(t) => {
                    total = t;
                },
            }
            own.push(d);
            k += 1;
            proof {
                assert(own@ =~= dims@.take(k as int));
            }
        }
        proof {
            assert(dims@.take(n as int) =~= dims@);
        }
        let fill: Value = kind.initial();
        let mut cells: Vec<Value> = Vec::new();
        let mut i: usize = 0;
        while i < total
            invariant
                i <= total,
                cells@.len() == i,
                fill == kind.default_value(),
                forall|j: int| 0 <= j < i ==> cells@[j] == fill,
            decreases total - i,
        {
            cells.push(fill);
            i += 1;
        }
        Ok(ArrayObject { kind, dims: own, cells })
    }

    /// The kind of the elements.
    pub fn element_kind(&self) -> (k: ElementKind)
        ensures
            k == self.kind(),
    {
        self.kind
    }

    /// The number of dimensions.
    pub fn rank(&self) -> (n: usize)
        ensures
            n == self.shape().len(),
    {
        self.dims.len()
    }

    /// The size of dimension `k`.
    pub fn dimension(&self, k: usize) -> (d: i64)
        requires
            k < self.shape().len(),
        ensures
            d == self.shape()[k as int],
    {
        self.dims[k]
    }

    /// The number of slots.
    pub fn len(&self) -> (n: usize)
        ensures
            n == self@.len(),
    {
        self.cells.len()
    }

    /// The position of the slot that `indices` names in the flat store.
    /// A wrong number of indices is told apart from an index out of range,
    /// and is looked at first.
    pub fn locate(&self, indices: &Vec<i64>) -> (res: Result<usize, Fault>)
        requires
            self.wf(),
        ensures
            match res {
                Ok(p) => {
                    &&& self.locate_fault(indices@) is None
                    &&& p == offset(self.shape(), indices@)
                    &&& p < self@.len()
                },
                Err(f) => self.locate_fault(indices@) == Some(f),
            },
    {
        let n: usize = self.dims.len();
        if indices.len() != n {
            return Err(Fault::DimensionMismatch);
        }
        let slots: usize = self.cells.len();
        let mut pos: usize = 0;
        let mut k: usize = 0;
        while k < n
            invariant
                self.wf(),
                slots == self.cells@.len(),
                n == self.dims.len(),
                n == indices.len(),
                k <= n,
                in_bounds(self.dims@.take(k as int), indices@.take(k as int)),
                pos == offset(self.dims@.take(k as int), indices@.take(k as int)),
            decreases n - k,
        {
            let d: i64 = self.dims[k];
            let i: i64 = indices[k];
            if i < 0 || i >= d {
                return Err(Fault::IndexOutOfRange);
            }
            proof {
                let dk = self.dims@.take(k as int);
                let ik = indices@.take(k as int);
                let dl = self.dims@.take(k + 1);
                let il = indices@.take(k + 1);
                assert(dl.drop_last() =~= dk);
                assert(il.drop_last() =~= ik);
                assert(in_bounds(dl, il)) by {
                    assert forall|j: int| 0 <= j < dl.len() implies 0 <= #[trigger] il[j] < dl[j] by {
                        if j < k {
                            assert(0 <= ik[j] < dk[j]);
                        }
                    }
                }
                lemma_offset_in_volume(dl, il);
                lemma_volume_prefix(self.dims@, k + 1);
                lemma_offset_in_volume(dk, ik);
                lemma_volume_positive(dk);
                assert(offset(dl, il) == pos * d + i);
                assert(volume(dl) == volume(dk) * d);
                assert(0 <= pos * d && d <= volume(dk) * d) by (nonlinear_arith)
                    requires
                        pos >= 0,
                        d >= 1,
                        volume(dk) >= 1,
                ;
            }
            pos = pos * (d as usize) + (i as usize);
            k += 1;
        }
        proof {
            assert(self.dims@.take(n as int) =~= self.dims@);
            assert(indices@.take(n as int) =~= indices@);
            lemma_offset_in_volume(self.dims@, indices@);
        }
        Ok(pos)
    }

    /// The content of the slot that `indices` names.
    pub fn get(&self, indices: &Vec<i64>) -> (res: Result<Value, Fault>)
        requires
            self.wf(),
        ensures
            res == match self.locate_fault(indices@) {
                None => Ok::<Value, Fault>(self.at(indices@)),
                Some(f) => Err::<Value, Fault>(f),
            },
    {
        let slots: usize = self.cells.len();
        match self.locate(indices) {
            Ok(p) => {
                proof {
                    lemma_offset_in_volume(self.shape(), indices@);
                    assert(offset(self.shape(), indices@) < slots);
                }
                Ok(self.cells[p])
            },
            Err(f) => Err(f),
        }
    }

    /// The content of the slot at position `p` of the flat store.
    pub fn read(&self, p: usize) -> (v: Value)
        requires
            p < self@.len(),
        ensures
            v == self@[p as int],
    {
        self.cells[p]
    }

    /// Writes `value` into the slot at position `p` of the flat store. The
    /// kind and the shape stay as they are, and so does every other slot.
    pub fn write(&mut self, p: usize, value: Value)
        requires
            p < old(self)@.len(),
        ensures
            final(self)@ == old(self)@.update(p as int, value),
            final(self).kind() == old(self).kind(),
            final(self).shape() == old(self).shape(),
    {
        self.cells.set(p, value);
    }
}

} // verus!
