//! Tensors: a shape over a window of a shared buffer.

use crate::arith::{
    abs_gives, add_gives, count_gives, div_gives, is_functional, le_gives, mul_gives, sub_gives,
    Arith, Cast,
};
use crate::error::InferError;
use std::sync::Arc;
use vstd::prelude::*;

verus! {

/// Element formats that a tensor can be converted through.
#[derive(Debug, Clone, Copy, PartialEq, Eq, Structural)]
pub enum DType {
    /// Half precision.
    F16,
    /// Single precision.
    F32,
}

/// Number of elements that a shape describes: the product of its dimensions.
pub open spec fn shape_size(shape: Seq<usize>) -> nat
    decreases shape.len(),
{
    if shape.len() == 0 {
        1
    } else {
        shape_size(shape.drop_last()) * (shape.last() as nat)
    }
}

/// A shape with a zero dimension describes no elements.
pub proof fn lemma_shape_size_zero(shape: Seq<usize>, k: int)
    requires
        0 <= k < shape.len(),
        shape[k] == 0,
    ensures
        shape_size(shape) == 0,
    decreases shape.len(),
{
    if k < shape.len() - 1 {
        lemma_shape_size_zero(shape.drop_last(), k);
        assert(shape_size(shape.drop_last()) * (shape.last() as nat) == 0) by (nonlinear_arith)
            requires
                shape_size(shape.drop_last()) == 0,
        ;
    } else {
        assert(shape_size(shape.drop_last()) * (shape.last() as nat) == 0) by (nonlinear_arith)
            requires
                shape.last() == 0,
        ;
    }
}

/// Without a zero dimension, the size of a prefix never exceeds the size of
/// the whole shape.
pub proof fn lemma_shape_size_prefix(shape: Seq<usize>, k: int)
    requires
        0 <= k <= shape.len(),
        forall|i: int| 0 <= i < shape.len() ==> shape[i] != 0,
    ensures
        1 <= shape_size(shape.take(k)) <= shape_size(shape),
    decreases shape.len() - k,
{
    if k == shape.len() {
        assert(shape.take(k) =~= shape);
        lemma_shape_size_positive(shape);
    } else {
        lemma_shape_size_prefix(shape, k + 1);
        let next = shape.take(k + 1);
        assert(next.drop_last() =~= shape.take(k));
        assert(next.last() == shape[k]);
        lemma_shape_size_positive(shape.take(k));
        assert(shape_size(shape.take(k)) <= shape_size(shape.take(k)) * (shape[k] as nat))
            by (nonlinear_arith)
            requires
                shape[k] >= 1,
        ;
    }
}

/// Without a zero dimension, a shape describes at least one element.
pub proof fn lemma_shape_size_positive(shape: Seq<usize>)
    requires
        forall|i: int| 0 <= i < shape.len() ==> shape[i] != 0,
    ensures
        shape_size(shape) >= 1,
    decreases shape.len(),
{
    if shape.len() > 0 {
        lemma_shape_size_positive(shape.drop_last());
        assert(shape_size(shape.drop_last()) * (shape.last() as nat) >= 1) by (nonlinear_arith)
            requires
                shape_size(shape.drop_last()) >= 1,
                shape.last() >= 1,
        ;
    }
}

/// Computes the number of elements of a shape, or `None` where that number
/// does not fit the machine word.
pub fn element_count(shape: &Vec<usize>) -> (r: Option<usize>)
    ensures
        match r {
            Some(n) => n == shape_size(shape@),
            None => shape_size(shape@) > usize::MAX,
        },
{
    let mut k: usize = 0;
    while k < shape.len()
        invariant
            0 <= k <= shape.len(),
            forall|i: int| 0 <= i < k ==> shape@[i] != 0,
        decreases shape.len() - k,
    {
        if shape[k] == 0 {
            proof {
                lemma_shape_size_zero(shape@, k as int);
            }
            return Some(0);
        }
        k += 1;
    }
    let mut total: usize = 1;
    let mut j: usize = 0;
    assert(shape@.take(0) =~= Seq::<usize>::empty());
    while j < shape.len()
        invariant
            0 <= j <= shape.len(),
            forall|i: int| 0 <= i < shape.len() ==> shape@[i] != 0,
            total == shape_size(shape@.take(j as int)),
        decreases shape.len() - j,
    {
        proof {
            let next = shape@.take(j + 1);
            assert(next.drop_last() =~= shape@.take(j as int));
            assert(next.last() == shape@[j as int]);
            lemma_shape_size_prefix(shape@, j + 1);
        }
        match total.checked_mul(shape[j]) {
            Some(p) => {
                total = p;
            },
            None => {
                return None;
            },
        }
        j += 1;
    }
    assert(shape@.take(shape.len() as int) =~= shape@);
    Some(total)
}

/// Copies a slice into a vector of its own.
pub fn copy_of<T: Copy>(src: &[T]) -> (r: Vec<T>)
    ensures
        r@ == src@,
{
    let mut out: Vec<T> = Vec::with_capacity(src.len());
    let mut i: usize = 0;
    while i < src.len()
        invariant
            0 <= i <= src.len(),
            out@ == src@.take(i as int),
        decreases src.len() - i,
    {
        out.push(src[i]);
        assert(src@.take(i + 1) =~= src@.take(i as int).push(src@[i as int]));
        i += 1;
    }
    assert(src@.take(src.len() as int) =~= src@);
    out
}

/// A shape laid over a window of a shared buffer.
///
/// Several tensors may look at one buffer: `slice` hands out a window without
/// copying. A tensor is written by `store`, which gives it a buffer of its
/// own, so that no other view ever sees the change.
pub struct Tensor<T> {
    data: Arc<Vec<T>>,
    shape: Vec<usize>,
    offset: usize,
    length: usize,
}

impl<T> Tensor<T> {
    #[verifier::type_invariant]
    spec fn well_formed(&self) -> bool {
        &&& self.offset + self.length <= self.data@.len()
        &&& shape_size(self.shape@) == self.length
    }

    /// The elements of the tensor, in row-major order.
    pub closed spec fn view(&self) -> Seq<T> {
        self.data@.subrange(self.offset as int, self.offset + self.length)
    }

    /// The dimensions of the tensor.
    pub closed spec fn dims(&self) -> Seq<usize> {
        self.shape@
    }
}

impl<T: Copy + Default> Tensor<T> {
    /// Builds a tensor of `shape` in which every element is the default value
    /// of the element type.
    pub fn default(shape: &Vec<usize>) -> (r: Self)
        requires
            shape_size(shape@) <= usize::MAX,
        ensures
            r.dims() == shape@,
            r@.len() == shape_size(shape@),
            exists|v: T|
                call_ensures(T::default, (), v) && forall|i: int|
                    0 <= i < r@.len() ==> r@[i] == v,
    {
        let length = match element_count(shape) {
            Some(n) => n,
            None => 0,
        };
        let fill = T::default();
        let mut data: Vec<T> = Vec::with_capacity(length);
        let mut i: usize = 0;
        while i < length
            invariant
                0 <= i <= length,
                data@.len() == i,
                forall|k: int| 0 <= k < i ==> data@[k] == fill,
            decreases length - i,
        {
            data.push(fill);
            i += 1;
        }
        let r = Tensor::new(data, shape);
        assert(call_ensures(T::default, (), fill) && forall|i: int|
            0 <= i < r@.len() ==> r@[i] == fill);
        r
    }
}

impl<T: Copy> Tensor<T> {
    /// Builds a tensor that owns `data`, laid out as `shape`.
    pub fn new(data: Vec<T>, shape: &Vec<usize>) -> (r: Self)
        requires
            shape_size(shape@) == data@.len(),
        ensures
            r@ == data@,
            r.dims() == shape@,
    {
        let length = data.len();
        let r = Tensor { data: Arc::new(data), shape: shape.clone(), offset: 0, length };
        assert(r.data@.subrange(0, length as int) =~= data@);
        r
    }

    /// The elements, as a read-only window of the buffer.
    pub fn data(&self) -> (r: &[T])
        ensures
            r@ == self@,
    {
        proof {
            use_type_invariant(self);
        }
        let whole = self.data.as_slice();
        let _room = whole.len();
        &whole[self.offset..self.offset + self.length]
    }

    /// The dimensions.
    pub fn shape(&self) -> (r: &Vec<usize>)
        ensures
            r@ == self.dims(),
            shape_size(r@) == self@.len(),
    {
        proof {
            use_type_invariant(self);
        }
        &self.shape
    }

    /// The number of elements.
    pub fn size(&self) -> (r: usize)
        ensures
            r == self@.len(),
            r == shape_size(self.dims()),
    {
        proof {
            use_type_invariant(self);
        }
        self.length
    }

    /// Lays a new shape over the same elements. The shape is refused, and the
    /// tensor left as it was, where it describes another number of elements.
    pub fn reshape(&mut self, new_shape: &Vec<usize>) -> (r: Result<(), InferError>)
        ensures
            r is Ok <==> shape_size(new_shape@) == old(self)@.len(),
            r is Ok ==> final(self).dims() == new_shape@,
            r is Err ==> r == Err::<(), InferError>(InferError::ShapeMismatch) && final(self).dims()
                == old(self).dims(),
            final(self)@ == old(self)@,
    {
        proof {
            use_type_invariant(&*self);
        }
        match element_count(new_shape) {
            Some(n) => {
                if n != self.length {
                    return Err(InferError::ShapeMismatch);
                }
            },
            None => {
                return Err(InferError::ShapeMismatch);
            },
        }
        self.shape = new_shape.clone();
        Ok(())
    }

    /// A window of `shape` that starts `start` elements into this tensor and
    /// shares its buffer. Refused where the window would reach past the end.
    pub fn slice(&self, start: usize, shape: &Vec<usize>) -> (r: Result<Self, InferError>)
        ensures
            r is Ok <==> start + shape_size(shape@) <= self@.len(),
            r matches Ok(t) ==> t.dims() == shape@ && t@ == self@.subrange(
                start as int,
                start + shape_size(shape@),
            ),
            r is Err ==> r matches Err(InferError::ShapeMismatch),
    {
        proof {
            use_type_invariant(self);
        }
        let n = match element_count(shape) {
            Some(n) => n,
            None => {
                return Err(InferError::ShapeMismatch);
            },
        };
        if start > self.length || n > self.length - start {
            return Err(InferError::ShapeMismatch);
        }
        let _room = self.data.len();
        let t = Tensor {
            data: self.data.clone(),
            shape: shape.clone(),
            offset: self.offset + start,
            length: n,
        };
        assert(t@ =~= self@.subrange(start as int, start + n));
        Ok(t)
    }

    /// A copy of the elements.
    pub fn to_vec(&self) -> (r: Vec<T>)
        ensures
            r@ == self@,
    {
        copy_of(self.data())
    }

    /// Replaces the elements by `values`, keeping the shape. The tensor gets
    /// a buffer of its own: views that shared the old one keep what they saw.
    pub fn store(&mut self, values: Vec<T>)
        requires
            values@.len() == old(self)@.len(),
        ensures
            final(self)@ == values@,
            final(self).dims() == old(self).dims(),
    {
        proof {
            use_type_invariant(&*self);
        }
        let ghost want = values@;
        self.offset = 0;
        self.data = Arc::new(values);
        assert(self.data@.subrange(0, self.length as int) =~= want);
    }
}

/// `r` is a value that converting `x` through `dtype` can give.
pub open spec fn cast_gives<T, U, C: Cast<T, U>>(cast: &C, dtype: DType, x: T, r: U) -> bool {
    match dtype {
        DType::F16 => call_ensures(C::through_half, (cast, x), r),
        DType::F32 => call_ensures(C::widen, (cast, x), r),
    }
}

impl<T: Copy> Tensor<T> {
    /// A new tensor of the same shape whose elements are those of this one,
    /// converted: through half precision for `F16`, directly for `F32`.
    pub fn to_dtype<U: Copy, C: Cast<T, U>>(&self, cast: &C, dtype: DType) -> (r: Tensor<U>)
        ensures
            r.dims() == self.dims(),
            r@.len() == self@.len(),
            forall|i: int| 0 <= i < self@.len() ==> cast_gives(cast, dtype, self@[i], #[trigger] r@[i]),
    {
        let source = self.data();
        let mut out: Vec<U> = Vec::with_capacity(source.len());
        let mut i: usize = 0;
        while i < source.len()
            invariant
                0 <= i <= source@.len(),
                out@.len() == i,
                forall|k: int|
                    0 <= k < i ==> cast_gives(cast, dtype, source@[k], #[trigger] out@[k]),
            decreases source.len() - i,
        {
            let v = match dtype {
                DType::F16 => cast.through_half(source[i]),
                DType::F32 => cast.widen(source[i]),
            };
            out.push(v);
            i += 1;
        }
        Tensor::new(out, self.shape())
    }
}

/// `r` is an answer to whether `x` and `y` are close:
/// `|x - y| <= rel * (|x| + |y|) / 2`.
pub open spec fn close_gives<T, A: Arith<T>>(ar: &A, x: T, y: T, rel: T, r: bool) -> bool {
    exists|d: T, ad: T, ax: T, ay: T, s: T, m: T, two: T, h: T|
        #![trigger sub_gives(ar, x, y, d), add_gives(ar, ax, ay, s), div_gives(ar, m, two, h), le_gives(ar, ad, h, r)]
        {
            &&& sub_gives(ar, x, y, d)
            &&& abs_gives(ar, d, ad)
            &&& abs_gives(ar, x, ax)
            &&& abs_gives(ar, y, ay)
            &&& add_gives(ar, ax, ay, s)
            &&& mul_gives(ar, rel, s, m)
            &&& count_gives(ar, 2, two)
            &&& div_gives(ar, m, two, h)
            &&& le_gives(ar, ad, h, r)
        }
}

/// Whether `x` and `y` differ by no more than the share `rel` of their mean
/// magnitude.
pub fn float_eq<T: Copy, A: Arith<T>>(ar: &A, x: T, y: T, rel: T) -> (r: bool)
    ensures
        close_gives(ar, x, y, rel, r),
{
    let d = ar.sub(x, y);
    let ad = ar.abs(d);
    let ax = ar.abs(x);
    let ay = ar.abs(y);
    let s = ar.add(ax, ay);
    let m = ar.mul(rel, s);
    let two = ar.from_count(2);
    let h = ar.div(m, two);
    let r = ar.le(ad, h);
    assert(sub_gives(ar, x, y, d) && abs_gives(ar, d, ad) && abs_gives(ar, x, ax) && abs_gives(
        ar,
        y,
        ay,
    ) && add_gives(ar, ax, ay, s) && mul_gives(ar, rel, s, m) && count_gives(ar, 2, two)
        && div_gives(ar, m, two, h) && le_gives(ar, ad, h, r));
    r
}

/// With functional arithmetic, whether two elements are close has one answer.
pub proof fn lemma_close_gives_one_value<T, A: Arith<T>>(
    ar: &A,
    x: T,
    y: T,
    rel: T,
    r1: bool,
    r2: bool,
)
    requires
        is_functional(ar),
        close_gives(ar, x, y, rel, r1),
        close_gives(ar, x, y, rel, r2),
    ensures
        r1 == r2,
{
    let (d1, ad1, ax1, ay1, s1, m1, two1, h1) = choose|
        d: T,
        ad: T,
        ax: T,
        ay: T,
        s: T,
        m: T,
        two: T,
        h: T,
    |
        #![trigger sub_gives(ar, x, y, d), add_gives(ar, ax, ay, s), div_gives(ar, m, two, h), le_gives(ar, ad, h, r1)]
        {
            &&& sub_gives(ar, x, y, d)
            &&& abs_gives(ar, d, ad)
            &&& abs_gives(ar, x, ax)
            &&& abs_gives(ar, y, ay)
            &&& add_gives(ar, ax, ay, s)
            &&& mul_gives(ar, rel, s, m)
            &&& count_gives(ar, 2, two)
            &&& div_gives(ar, m, two, h)
            &&& le_gives(ar, ad, h, r1)
        };
    let (d2, ad2, ax2, ay2, s2, m2, two2, h2) = choose|
        d: T,
        ad: T,
        ax: T,
        ay: T,
        s: T,
        m: T,
        two: T,
        h: T,
    |
        #![trigger sub_gives(ar, x, y, d), add_gives(ar, ax, ay, s), div_gives(ar, m, two, h), le_gives(ar, ad, h, r2)]
        {
            &&& sub_gives(ar, x, y, d)
            &&& abs_gives(ar, d, ad)
            &&& abs_gives(ar, x, ax)
            &&& abs_gives(ar, y, ay)
            &&& add_gives(ar, ax, ay, s)
            &&& mul_gives(ar, rel, s, m)
            &&& count_gives(ar, 2, two)
            &&& div_gives(ar, m, two, h)
            &&& le_gives(ar, ad, h, r2)
        };
    assert(d1 == d2);
    assert(ad1 == ad2 && ax1 == ax2 && ay1 == ay2);
    assert(s1 == s2);
    assert(m1 == m2 && two1 == two2);
    assert(h1 == h2);
}

/// Whether two shapes are the same.
pub fn same_shape(a: &Vec<usize>, b: &Vec<usize>) -> (r: bool)
    ensures
        r == (a@ == b@),
{
    if a.len() != b.len() {
        return false;
    }
    let mut i: usize = 0;
    while i < a.len()
        invariant
            a@.len() == b@.len(),
            0 <= i <= a@.len(),
            forall|k: int| 0 <= k < i ==> a@[k] == b@[k],
        decreases a.len() - i,
    {
        if a[i] != b[i] {
            return false;
        }
        i += 1;
    }
    assert(a@ =~= b@);
    true
}

impl<T: Copy> Tensor<T> {
    /// Whether `other` has the shape of this tensor and every element of it
    /// is close to the element in the same place, as `float_eq` has it. The
    /// elements are compared in order, up to the first pair found apart.
    pub fn close_to<A: Arith<T>>(&self, ar: &A, other: &Self, rel: T) -> (r: bool)
        ensures
            r ==> self.dims() == other.dims() && forall|i: int|
                0 <= i < self@.len() ==> #[trigger] close_gives(
                    ar,
                    self@[i],
                    other@[i],
                    rel,
                    true,
                ),
            !r ==> self.dims() != other.dims() || exists|i: int|
                0 <= i < self@.len() && #[trigger] close_gives(ar, self@[i], other@[i], rel, false)
                    && forall|k: int|
                    0 <= k < i ==> #[trigger] close_gives(ar, self@[k], other@[k], rel, true),
    {
        if !same_shape(self.shape(), other.shape()) {
            return false;
        }
        let a = self.data();
        let b = other.data();
        let _size = other.size();
        let mut i: usize = 0;
        while i < a.len()
            invariant
                a@ == self@,
                b@ == other@,
                a@.len() == b@.len(),
                self.dims() == other.dims(),
                0 <= i <= a@.len(),
                forall|k: int|
                    0 <= k < i ==> #[trigger] close_gives(ar, self@[k], other@[k], rel, true),
            decreases a.len() - i,
        {
            if !float_eq(ar, a[i], b[i], rel) {
                assert(close_gives(ar, self@[i as int], other@[i as int], rel, false) && forall|
                    k: int,
                |
                    0 <= k < i ==> #[trigger] close_gives(ar, self@[k], other@[k], rel, true));
                return false;
            }
            i += 1;
        }
        true
    }
}

} // verus!
