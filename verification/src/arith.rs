//! The arithmetic that the library computes with, and the words in which
//! contracts speak of what an operation can return.

use vstd::prelude::*;

verus! {

/// Arithmetic on elements of type `T`.
///
/// The kernels never compute on an element themselves: every sum, product or
/// comparison is a call of one of these methods. Nothing is assumed of what a
/// method returns, so what is proved of a kernel holds for every
/// implementation: which operation it applies to which elements, and in what
/// order.
pub trait Arith<T> {
    /// The neutral element of `add`.
    fn zero(&self) -> T;

    /// The neutral element of `mul`.
    fn one(&self) -> T;

    /// The element that stands for the count `n`.
    fn from_count(&self, n: usize) -> T;

    /// The sum `a + b`.
    fn add(&self, a: T, b: T) -> T;

    /// The difference `a - b`.
    fn sub(&self, a: T, b: T) -> T;

    /// The product `a * b`.
    fn mul(&self, a: T, b: T) -> T;

    /// The quotient `a / b`.
    fn div(&self, a: T, b: T) -> T;

    /// The negation `-a`.
    fn neg(&self, a: T) -> T;

    /// The magnitude `|a|`.
    fn abs(&self, a: T) -> T;

    /// The larger of `a` and `b`.
    fn max(&self, a: T, b: T) -> T;

    /// The smaller of `a` and `b`.
    fn min(&self, a: T, b: T) -> T;

    /// The exponential function.
    fn exp(&self, a: T) -> T;

    /// The square root.
    fn sqrt(&self, a: T) -> T;

    /// `a` raised to the power `e`.
    fn powf(&self, a: T, e: T) -> T;

    /// Sine and cosine of `a`, in this order.
    fn sin_cos(&self, a: T) -> (T, T);

    /// Whether `a` is at most `b`.
    fn le(&self, a: T, b: T) -> bool;

    /// An integer that orders as the elements do: a larger element has a
    /// larger key, and equal keys mean elements that rank alike.
    fn order_key(&self, a: T) -> i64;
}

/// Conversion of elements of type `T` to elements of type `U`.
pub trait Cast<T, U> {
    /// `x` as an element of the wider type.
    fn widen(&self, x: T) -> U;

    /// `x` rounded to half precision, then as an element of the wider type.
    fn through_half(&self, x: T) -> U;
}

/// `r` is a value that `ar.zero()` can return.
pub open spec fn zero_gives<T, A: Arith<T>>(ar: &A, r: T) -> bool {
    call_ensures(A::zero, (ar,), r)
}

/// `r` is a value that `ar.one()` can return.
pub open spec fn one_gives<T, A: Arith<T>>(ar: &A, r: T) -> bool {
    call_ensures(A::one, (ar,), r)
}

/// `r` is a value that `ar.from_count(n)` can return.
pub open spec fn count_gives<T, A: Arith<T>>(ar: &A, n: usize, r: T) -> bool {
    call_ensures(A::from_count, (ar, n), r)
}

/// `r` is a value that `ar.add(a, b)` can return.
pub open spec fn add_gives<T, A: Arith<T>>(ar: &A, a: T, b: T, r: T) -> bool {
    call_ensures(A::add, (ar, a, b), r)
}

/// `r` is a value that `ar.sub(a, b)` can return.
pub open spec fn sub_gives<T, A: Arith<T>>(ar: &A, a: T, b: T, r: T) -> bool {
    call_ensures(A::sub, (ar, a, b), r)
}

/// `r` is a value that `ar.mul(a, b)` can return.
pub open spec fn mul_gives<T, A: Arith<T>>(ar: &A, a: T, b: T, r: T) -> bool {
    call_ensures(A::mul, (ar, a, b), r)
}

/// `r` is a value that `ar.div(a, b)` can return.
pub open spec fn div_gives<T, A: Arith<T>>(ar: &A, a: T, b: T, r: T) -> bool {
    call_ensures(A::div, (ar, a, b), r)
}

/// `r` is a value that `ar.max(a, b)` can return.
pub open spec fn max_gives<T, A: Arith<T>>(ar: &A, a: T, b: T, r: T) -> bool {
    call_ensures(A::max, (ar, a, b), r)
}

/// `r` is a value that `ar.min(a, b)` can return.
pub open spec fn min_gives<T, A: Arith<T>>(ar: &A, a: T, b: T, r: T) -> bool {
    call_ensures(A::min, (ar, a, b), r)
}

/// `r` is a value that `ar.powf(a, b)` can return.
pub open spec fn powf_gives<T, A: Arith<T>>(ar: &A, a: T, b: T, r: T) -> bool {
    call_ensures(A::powf, (ar, a, b), r)
}

/// `r` is a value that `ar.neg(a)` can return.
pub open spec fn neg_gives<T, A: Arith<T>>(ar: &A, a: T, r: T) -> bool {
    call_ensures(A::neg, (ar, a), r)
}

/// `r` is a value that `ar.abs(a)` can return.
pub open spec fn abs_gives<T, A: Arith<T>>(ar: &A, a: T, r: T) -> bool {
    call_ensures(A::abs, (ar, a), r)
}

/// `r` is a value that `ar.exp(a)` can return.
pub open spec fn exp_gives<T, A: Arith<T>>(ar: &A, a: T, r: T) -> bool {
    call_ensures(A::exp, (ar, a), r)
}

/// `r` is a value that `ar.sqrt(a)` can return.
pub open spec fn sqrt_gives<T, A: Arith<T>>(ar: &A, a: T, r: T) -> bool {
    call_ensures(A::sqrt, (ar, a), r)
}

/// `(s, c)` is a pair that `ar.sin_cos(a)` can return.
pub open spec fn sin_cos_gives<T, A: Arith<T>>(ar: &A, a: T, s: T, c: T) -> bool {
    call_ensures(A::sin_cos, (ar, a), (s, c))
}

/// `r` is an answer that `ar.le(a, b)` can return.
pub open spec fn le_gives<T, A: Arith<T>>(ar: &A, a: T, b: T, r: bool) -> bool {
    call_ensures(A::le, (ar, a, b), r)
}

/// `k` is a key that `ar.order_key(a)` can return.
pub open spec fn key_gives<T, A: Arith<T>>(ar: &A, a: T, k: i64) -> bool {
    call_ensures(A::order_key, (ar, a), k)
}

/// `total` is a value that adding up `items` from left to right, beginning
/// with `start`, can give.
pub open spec fn sums_to<T, A: Arith<T>>(ar: &A, items: Seq<T>, start: T, total: T) -> bool
    decreases items.len(),
{
    if items.len() == 0 {
        total == start
    } else {
        exists|before: T|
            sums_to(ar, items.drop_last(), start, before) && #[trigger] add_gives(
                ar,
                before,
                items.last(),
                total,
            )
    }
}

/// One more item extends a running sum.
pub proof fn lemma_sums_to_push<T, A: Arith<T>>(
    ar: &A,
    items: Seq<T>,
    start: T,
    before: T,
    item: T,
    total: T,
)
    requires
        sums_to(ar, items, start, before),
        add_gives(ar, before, item, total),
    ensures
        sums_to(ar, items.push(item), start, total),
{
    let longer = items.push(item);
    assert(longer.drop_last() =~= items);
    assert(sums_to(ar, longer.drop_last(), start, before) && add_gives(
        ar,
        before,
        longer.last(),
        total,
    ));
}

/// `largest` is a value that taking the larger, from left to right, of
/// `first` and then each of `items` can give.
pub open spec fn max_of<T, A: Arith<T>>(ar: &A, items: Seq<T>, first: T, largest: T) -> bool
    decreases items.len(),
{
    if items.len() == 0 {
        largest == first
    } else {
        exists|before: T|
            max_of(ar, items.drop_last(), first, before) && #[trigger] max_gives(
                ar,
                before,
                items.last(),
                largest,
            )
    }
}

/// One more item extends a running maximum.
pub proof fn lemma_max_of_push<T, A: Arith<T>>(
    ar: &A,
    items: Seq<T>,
    first: T,
    before: T,
    item: T,
    largest: T,
)
    requires
        max_of(ar, items, first, before),
        max_gives(ar, before, item, largest),
    ensures
        max_of(ar, items.push(item), first, largest),
{
    let longer = items.push(item);
    assert(longer.drop_last() =~= items);
    assert(max_of(ar, longer.drop_last(), first, before) && max_gives(
        ar,
        before,
        longer.last(),
        largest,
    ));
}

/// `products` holds, position by position, a product of the elements of `a`
/// and `b`.
pub open spec fn products_of<T, A: Arith<T>>(ar: &A, a: Seq<T>, b: Seq<T>, products: Seq<T>) -> bool {
    &&& products.len() == a.len()
    &&& a.len() == b.len()
    &&& forall|i: int| 0 <= i < a.len() ==> mul_gives(ar, a[i], b[i], #[trigger] products[i])
}

/// `r` is an inner product of `a` and `b`: their products, position by
/// position, added up from left to right beginning with `zero`.
pub open spec fn dot_of<T, A: Arith<T>>(ar: &A, a: Seq<T>, b: Seq<T>, zero: T, r: T) -> bool {
    exists|products: Seq<T>|
        #[trigger] products_of(ar, a, b, products) && sums_to(ar, products, zero, r)
}

/// The inner product of two slices of one length, beginning with `zero`.
pub fn inner_product<T: Copy, A: Arith<T>>(ar: &A, a: &[T], b: &[T], zero: T) -> (r: T)
    requires
        a@.len() == b@.len(),
    ensures
        dot_of(ar, a@, b@, zero, r),
{
    let mut acc = zero;
    let ghost mut products: Seq<T> = Seq::empty();
    let mut i: usize = 0;
    while i < a.len()
        invariant
            a@.len() == b@.len(),
            0 <= i <= a.len(),
            products.len() == i,
            forall|k: int| 0 <= k < i ==> mul_gives(ar, a@[k], b@[k], #[trigger] products[k]),
            sums_to(ar, products, zero, acc),
        decreases a.len() - i,
    {
        let p = ar.mul(a[i], b[i]);
        let next = ar.add(acc, p);
        proof {
            lemma_sums_to_push(ar, products, zero, acc, p, next);
            products = products.push(p);
        }
        acc = next;
        i += 1;
    }
    assert(products_of(ar, a@, b@, products));
    acc
}

/// The arithmetic is functional: on given arguments, each operation has one
/// result.
pub open spec fn is_functional<T, A: Arith<T>>(ar: &A) -> bool {
    &&& forall|r1: T, r2: T|
        #![trigger zero_gives(ar, r1), zero_gives(ar, r2)]
        zero_gives(ar, r1) && zero_gives(ar, r2) ==> r1 == r2
    &&& forall|r1: T, r2: T|
        #![trigger one_gives(ar, r1), one_gives(ar, r2)]
        one_gives(ar, r1) && one_gives(ar, r2) ==> r1 == r2
    &&& forall|n: usize, r1: T, r2: T|
        #![trigger count_gives(ar, n, r1), count_gives(ar, n, r2)]
        count_gives(ar, n, r1) && count_gives(ar, n, r2) ==> r1 == r2
    &&& forall|a: T, b: T, r1: T, r2: T|
        #![trigger add_gives(ar, a, b, r1), add_gives(ar, a, b, r2)]
        add_gives(ar, a, b, r1) && add_gives(ar, a, b, r2) ==> r1 == r2
    &&& forall|a: T, b: T, r1: T, r2: T|
        #![trigger sub_gives(ar, a, b, r1), sub_gives(ar, a, b, r2)]
        sub_gives(ar, a, b, r1) && sub_gives(ar, a, b, r2) ==> r1 == r2
    &&& forall|a: T, b: T, r1: T, r2: T|
        #![trigger mul_gives(ar, a, b, r1), mul_gives(ar, a, b, r2)]
        mul_gives(ar, a, b, r1) && mul_gives(ar, a, b, r2) ==> r1 == r2
    &&& forall|a: T, b: T, r1: T, r2: T|
        #![trigger div_gives(ar, a, b, r1), div_gives(ar, a, b, r2)]
        div_gives(ar, a, b, r1) && div_gives(ar, a, b, r2) ==> r1 == r2
    &&& forall|a: T, b: T, r1: T, r2: T|
        #![trigger max_gives(ar, a, b, r1), max_gives(ar, a, b, r2)]
        max_gives(ar, a, b, r1) && max_gives(ar, a, b, r2) ==> r1 == r2
    &&& forall|a: T, b: T, r1: T, r2: T|
        #![trigger min_gives(ar, a, b, r1), min_gives(ar, a, b, r2)]
        min_gives(ar, a, b, r1) && min_gives(ar, a, b, r2) ==> r1 == r2
    &&& forall|a: T, b: T, r1: T, r2: T|
        #![trigger powf_gives(ar, a, b, r1), powf_gives(ar, a, b, r2)]
        powf_gives(ar, a, b, r1) && powf_gives(ar, a, b, r2) ==> r1 == r2
    &&& forall|a: T, r1: T, r2: T|
        #![trigger neg_gives(ar, a, r1), neg_gives(ar, a, r2)]
        neg_gives(ar, a, r1) && neg_gives(ar, a, r2) ==> r1 == r2
    &&& forall|a: T, r1: T, r2: T|
        #![trigger abs_gives(ar, a, r1), abs_gives(ar, a, r2)]
        abs_gives(ar, a, r1) && abs_gives(ar, a, r2) ==> r1 == r2
    &&& forall|a: T, r1: T, r2: T|
        #![trigger exp_gives(ar, a, r1), exp_gives(ar, a, r2)]
        exp_gives(ar, a, r1) && exp_gives(ar, a, r2) ==> r1 == r2
    &&& forall|a: T, r1: T, r2: T|
        #![trigger sqrt_gives(ar, a, r1), sqrt_gives(ar, a, r2)]
        sqrt_gives(ar, a, r1) && sqrt_gives(ar, a, r2) ==> r1 == r2
    &&& forall|a: T, s1: T, c1: T, s2: T, c2: T|
        #![trigger sin_cos_gives(ar, a, s1, c1), sin_cos_gives(ar, a, s2, c2)]
        sin_cos_gives(ar, a, s1, c1) && sin_cos_gives(ar, a, s2, c2) ==> s1 == s2 && c1 == c2
    &&& forall|a: T, b: T, r1: bool, r2: bool|
        #![trigger le_gives(ar, a, b, r1), le_gives(ar, a, b, r2)]
        le_gives(ar, a, b, r1) && le_gives(ar, a, b, r2) ==> r1 == r2
    &&& forall|a: T, k1: i64, k2: i64|
        #![trigger key_gives(ar, a, k1), key_gives(ar, a, k2)]
        key_gives(ar, a, k1) && key_gives(ar, a, k2) ==> k1 == k2
}

/// With functional arithmetic, a running sum has one value.
pub proof fn lemma_sums_to_one_value<T, A: Arith<T>>(
    ar: &A,
    items: Seq<T>,
    start: T,
    t1: T,
    t2: T,
)
    requires
        is_functional(ar),
        sums_to(ar, items, start, t1),
        sums_to(ar, items, start, t2),
    ensures
        t1 == t2,
    decreases items.len(),
{
    if items.len() > 0 {
        let b1 = choose|before: T|
            sums_to(ar, items.drop_last(), start, before) && #[trigger] add_gives(
                ar,
                before,
                items.last(),
                t1,
            );
        let b2 = choose|before: T|
            sums_to(ar, items.drop_last(), start, before) && #[trigger] add_gives(
                ar,
                before,
                items.last(),
                t2,
            );
        lemma_sums_to_one_value(ar, items.drop_last(), start, b1, b2);
        assert(add_gives(ar, b1, items.last(), t1) && add_gives(ar, b1, items.last(), t2));
    }
}

/// With functional arithmetic, a running maximum has one value.
pub proof fn lemma_max_of_one_value<T, A: Arith<T>>(
    ar: &A,
    items: Seq<T>,
    first: T,
    m1: T,
    m2: T,
)
    requires
        is_functional(ar),
        max_of(ar, items, first, m1),
        max_of(ar, items, first, m2),
    ensures
        m1 == m2,
    decreases items.len(),
{
    if items.len() > 0 {
        let b1 = choose|before: T|
            max_of(ar, items.drop_last(), first, before) && #[trigger] max_gives(
                ar,
                before,
                items.last(),
                m1,
            );
        let b2 = choose|before: T|
            max_of(ar, items.drop_last(), first, before) && #[trigger] max_gives(
                ar,
                before,
                items.last(),
                m2,
            );
        lemma_max_of_one_value(ar, items.drop_last(), first, b1, b2);
        assert(max_gives(ar, b1, items.last(), m1) && max_gives(ar, b1, items.last(), m2));
    }
}

/// With functional arithmetic, an inner product has one value.
pub proof fn lemma_dot_of_one_value<T, A: Arith<T>>(
    ar: &A,
    a: Seq<T>,
    b: Seq<T>,
    zero: T,
    r1: T,
    r2: T,
)
    requires
        is_functional(ar),
        dot_of(ar, a, b, zero, r1),
        dot_of(ar, a, b, zero, r2),
    ensures
        r1 == r2,
{
    let p1 = choose|products: Seq<T>|
        #[trigger] products_of(ar, a, b, products) && sums_to(ar, products, zero, r1);
    let p2 = choose|products: Seq<T>|
        #[trigger] products_of(ar, a, b, products) && sums_to(ar, products, zero, r2);
    assert forall|i: int| 0 <= i < p1.len() implies p1[i] == p2[i] by {
        assert(mul_gives(ar, a[i], b[i], p1[i]) && mul_gives(ar, a[i], b[i], p2[i]));
    }
    assert(p1 =~= p2);
    lemma_sums_to_one_value(ar, p1, zero, r1, r2);
}

} // verus!
