//! The gated activation of the feed-forward block.

use crate::arith::{
    add_gives, div_gives, exp_gives, is_functional, mul_gives, neg_gives, one_gives, Arith,
};
use crate::error::InferError;
use crate::tensor::Tensor;
use vstd::prelude::*;

verus! {

/// `r` is a value of `y * x / (1 + exp(-x))`, that is `y` gated by `x`, with
/// `one` for the number one.
pub open spec fn gate_of<T, A: Arith<T>>(ar: &A, one: T, y: T, x: T, r: T) -> bool {
    exists|p: T, n: T, e: T, d: T|
        {
            &&& #[trigger] mul_gives(ar, y, x, p)
            &&& neg_gives(ar, x, n)
            &&& #[trigger] exp_gives(ar, n, e)
            &&& add_gives(ar, one, e, d)
            &&& #[trigger] div_gives(ar, p, d, r)
        }
}

/// `after` is `before` gated by `x`, element by element.
pub open spec fn is_gated<T, A: Arith<T>>(ar: &A, before: Seq<T>, x: Seq<T>, after: Seq<T>) -> bool {
    &&& after.len() == x.len()
    &&& exists|one: T|
        #[trigger] one_gives(ar, one) && forall|i: int|
            0 <= i < x.len() ==> gate_of(ar, one, before[i], x[i], #[trigger] after[i])
}

/// Gates `y` by `x`, element by element and in place:
/// `y[i] := y[i] * x[i] / (1 + exp(-x[i]))`.
///
/// Refused, with `y` untouched, where the two do not hold the same number of
/// elements.
pub fn swiglu<T: Copy, A: Arith<T>>(ar: &A, y: &mut Tensor<T>, x: &Tensor<T>) -> (r: Result<
    (),
    InferError,
>)
    ensures
        r is Ok <==> old(y)@.len() == x@.len(),
        r is Err ==> r == Err::<(), InferError>(InferError::ShapeMismatch) && final(y)@ == old(
            y,
        )@,
        final(y).dims() == old(y).dims(),
        r is Ok ==> is_gated(ar, old(y)@, x@, final(y)@),
{
    let n = y.size();
    if n != x.size() {
        return Err(InferError::ShapeMismatch);
    }
    let xs = x.data();
    let mut out = y.to_vec();
    let one = ar.one();
    let mut i: usize = 0;
    while i < n
        invariant
            n == xs@.len(),
            out@.len() == n,
            old(y)@.len() == n,
            0 <= i <= n,
            forall|k: int| i <= k < n ==> out@[k] == old(y)@[k],
            forall|k: int| 0 <= k < i ==> gate_of(ar, one, old(y)@[k], xs@[k], #[trigger] out@[k]),
        decreases n - i,
    {
        let yi = out[i];
        let xi = xs[i];
        let p = ar.mul(yi, xi);
        let neg = ar.neg(xi);
        let e = ar.exp(neg);
        let d = ar.add(one, e);
        let v = ar.div(p, d);
        out.set(i, v);
        assert(mul_gives(ar, yi, xi, p) && neg_gives(ar, xi, neg) && exp_gives(ar, neg, e)
            && add_gives(ar, one, e, d) && div_gives(ar, p, d, v));
        i += 1;
    }
    y.store(out);
    assert(one_gives(ar, one));
    Ok(())
}

/// With functional arithmetic, gating has one value.
pub proof fn lemma_gate_of_one_value<T, A: Arith<T>>(ar: &A, one: T, y: T, x: T, r1: T, r2: T)
    requires
        is_functional(ar),
        gate_of(ar, one, y, x, r1),
        gate_of(ar, one, y, x, r2),
    ensures
        r1 == r2,
{
    let (p1, n1, e1, d1) = choose|p: T, n: T, e: T, d: T|
        {
            &&& #[trigger] mul_gives(ar, y, x, p)
            &&& neg_gives(ar, x, n)
            &&& #[trigger] exp_gives(ar, n, e)
            &&& add_gives(ar, one, e, d)
            &&& #[trigger] div_gives(ar, p, d, r1)
        };
    let (p2, n2, e2, d2) = choose|p: T, n: T, e: T, d: T|
        {
            &&& #[trigger] mul_gives(ar, y, x, p)
            &&& neg_gives(ar, x, n)
            &&& #[trigger] exp_gives(ar, n, e)
            &&& add_gives(ar, one, e, d)
            &&& #[trigger] div_gives(ar, p, d, r2)
        };
    assert(p1 == p2);
    assert(n1 == n2);
    assert(e1 == e2);
    assert(d1 == d2);
}

/// With functional arithmetic, `swiglu` has one result.
pub proof fn lemma_gated_one_value<T, A: Arith<T>>(
    ar: &A,
    before: Seq<T>,
    x: Seq<T>,
    a1: Seq<T>,
    a2: Seq<T>,
)
    requires
        is_functional(ar),
        is_gated(ar, before, x, a1),
        is_gated(ar, before, x, a2),
    ensures
        a1 == a2,
{
    let one1 = choose|one: T|
        #[trigger] one_gives(ar, one) && forall|i: int|
            0 <= i < x.len() ==> gate_of(ar, one, before[i], x[i], #[trigger] a1[i]);
    let one2 = choose|one: T|
        #[trigger] one_gives(ar, one) && forall|i: int|
            0 <= i < x.len() ==> gate_of(ar, one, before[i], x[i], #[trigger] a2[i]);
    assert(one1 == one2);
    assert forall|i: int| 0 <= i < x.len() implies a1[i] == a2[i] by {
        lemma_gate_of_one_value(ar, one1, before[i], x[i], a1[i], a2[i]);
    }
    assert(a1 =~= a2);
}

} // verus!
