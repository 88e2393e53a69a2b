//! Choosing the next token from logits: greedy, or by a draw among the most
//! probable candidates.

use crate::arith::{
    add_gives, div_gives, exp_gives, is_functional, key_gives, le_gives, min_gives, mul_gives,
    one_gives, sub_gives, zero_gives, Arith,
};
use crate::error::InferError;
use crate::tensor::Tensor;
use vstd::prelude::*;
use vstd::seq_lib::seq_to_set_is_finite;
use vstd::set_lib::{lemma_int_range, lemma_subset_equality, set_int_range};

verus! {

/// `best` is the lowest index that holds the largest key.
pub open spec fn is_first_max(keys: Seq<i64>, best: int) -> bool {
    &&& 0 <= best < keys.len()
    &&& forall|j: int| 0 <= j < keys.len() ==> keys[j] <= keys[best]
    &&& forall|j: int| 0 <= j < best ==> keys[j] < keys[best]
}

/// Candidate `a` comes before candidate `b`: it has the larger key, or the
/// same key and the lower index.
pub open spec fn precedes(keys: Seq<i64>, a: int, b: int) -> bool {
    keys[a] > keys[b] || (keys[a] == keys[b] && a < b)
}

/// `order` lists every index of `keys` once, the larger key first and, among
/// equal keys, the lower index first.
pub open spec fn is_descending_order(keys: Seq<i64>, order: Seq<usize>) -> bool {
    &&& order.len() == keys.len()
    &&& forall|i: int| 0 <= i < order.len() ==> (#[trigger] order[i]) < keys.len()
    &&& forall|i: int, j: int|
        0 <= i < j < order.len() ==> precedes(keys, order[i] as int, order[j] as int)
}

/// The index of the largest key, the lowest such index where several keys
/// are largest; `None` where there is no key at all.
pub fn argmax(keys: &[i64]) -> (r: Option<usize>)
    ensures
        r is None <==> keys@.len() == 0,
        r matches Some(best) ==> is_first_max(keys@, best as int),
{
    if keys.len() == 0 {
        return None;
    }
    let mut best: usize = 0;
    let mut j: usize = 1;
    while j < keys.len()
        invariant
            1 <= j <= keys.len(),
            0 <= best < j,
            forall|k: int| 0 <= k < j ==> keys@[k] <= keys@[best as int],
            forall|k: int| 0 <= k < best ==> keys@[k] < keys@[best as int],
        decreases keys.len() - j,
    {
        if keys[j] > keys[best] {
            best = j;
        }
        j += 1;
    }
    Some(best)
}

/// Order of two sort items: by the first component, then by the second.
pub open spec fn item_le(a: (i64, usize), b: (i64, usize)) -> bool {
    a.0 < b.0 || (a.0 == b.0 && a.1 <= b.1)
}

/// Sorts in place with `sort_unstable` of the standard library, which puts a
/// slice in ascending order; pairs of integers are ordered by their first
/// component and then by their second. The contract claims that the result
/// holds the same items as before, each as often, and that no item stands
/// before a smaller one.
#[verifier::external_body]
fn sort_items(items: &mut Vec<(i64, usize)>)
    ensures
        final(items)@.to_multiset() == old(items)@.to_multiset(),
        forall|i: int, j: int|
            0 <= i < j < final(items)@.len() ==> item_le(final(items)@[i], final(items)@[j]),
{
    items.sort_unstable();
}

/// The sort item of candidate `i`: its key mirrored, so that ascending items
/// mean descending keys, and its index.
pub open spec fn item_of(keys: Seq<i64>, i: int) -> (i64, usize) {
    ((-1 - keys[i]) as i64, i as usize)
}

/// The indices of `keys` from the largest key to the smallest; equal keys
/// keep the order of their indices.
pub fn descending_order(keys: &[i64]) -> (r: Vec<usize>)
    ensures
        is_descending_order(keys@, r@),
{
    let n = keys.len();
    let mut items: Vec<(i64, usize)> = Vec::with_capacity(n);
    let mut i: usize = 0;
    while i < n
        invariant
            n == keys@.len(),
            0 <= i <= n,
            items@.len() == i,
            forall|k: int| 0 <= k < i ==> items@[k] == item_of(keys@, k),
        decreases n - i,
    {
        items.push((-1 - keys[i], i));
        i += 1;
    }
    let ghost unsorted = items@;
    sort_items(&mut items);
    proof {
        assert(unsorted.no_duplicates());
        unsorted.lemma_multiset_has_no_duplicates();
        unsorted.to_multiset_ensures();
        items@.to_multiset_ensures();
        items@.lemma_multiset_has_no_duplicates_conv();
        assert forall|k: int| 0 <= k < items@.len() implies exists|t: int|
            0 <= t < n && #[trigger] items@[k] == #[trigger] item_of(keys@, t) by {
            assert(items@.contains(items@[k]));
            assert(unsorted.to_multiset().count(items@[k]) > 0);
            assert(unsorted.contains(items@[k]));
            let t = choose|t: int| 0 <= t < unsorted.len() && unsorted[t] == items@[k];
            assert(items@[k] == item_of(keys@, t));
        }
    }
    let mut order: Vec<usize> = Vec::with_capacity(n);
    let mut k: usize = 0;
    while k < n
        invariant
            n == keys@.len(),
            items@.len() == n,
            0 <= k <= n,
            order@.len() == k,
            forall|m: int| 0 <= m < k ==> order@[m] == items@[m].1,
        decreases n - k,
    {
        order.push(items[k].1);
        k += 1;
    }
    proof {
        assert forall|a: int| 0 <= a < order@.len() implies (#[trigger] order@[a]) < keys@.len() by {
            let t = choose|t: int| 0 <= t < n && items@[a] == #[trigger] item_of(keys@, t);
        }
        assert forall|a: int, b: int| 0 <= a < b < order@.len() implies precedes(
            keys@,
            order@[a] as int,
            order@[b] as int,
        ) by {
            let ta = choose|t: int| 0 <= t < n && items@[a] == #[trigger] item_of(keys@, t);
            let tb = choose|t: int| 0 <= t < n && items@[b] == #[trigger] item_of(keys@, t);
            assert(item_le(items@[a], items@[b]));
            assert(items@[a] != items@[b]);
        }
    }
    order
}

/// A descending order names every candidate: index `t` stands at the
/// position returned.
pub proof fn lemma_order_names_every_index(keys: Seq<i64>, order: Seq<usize>, t: int) -> (i: int)
    requires
        is_descending_order(keys, order),
        0 <= t < keys.len(),
    ensures
        0 <= i < order.len(),
        order[i] == t,
{
    let n = keys.len() as int;
    let named = order.map_values(|v: usize| v as int);
    assert forall|a: int, b: int| 0 <= a < named.len() && 0 <= b < named.len() && a != b implies named[a]
        != named[b] by {
        if a < b {
            assert(precedes(keys, order[a] as int, order[b] as int));
        } else {
            assert(precedes(keys, order[b] as int, order[a] as int));
        }
    }
    named.unique_seq_to_set();
    seq_to_set_is_finite(named);
    lemma_int_range(0, n);
    assert forall|v: int| named.to_set().contains(v) implies set_int_range(
        0,
        n,
    ).contains(v) by {
        let a = choose|a: int| 0 <= a < named.len() && named[a] == v;
        assert(order[a] < keys.len());
    }
    lemma_subset_equality(named.to_set(), set_int_range(0, n));
    assert(set_int_range(0, n).contains(t));
    assert(named.to_set().contains(t));
    let i = choose|i: int| 0 <= i < named.len() && named[i] == t;
    i
}

/// The first candidate of a descending order is the lowest index that holds
/// the largest key.
pub proof fn lemma_order_starts_at_first_max(keys: Seq<i64>, order: Seq<usize>)
    requires
        is_descending_order(keys, order),
        keys.len() > 0,
    ensures
        is_first_max(keys, order[0] as int),
{
    let best = order[0] as int;
    assert forall|j: int| 0 <= j < keys.len() implies keys[j] <= keys[best] && (j < best
        ==> keys[j] < keys[best]) by {
        let i = lemma_order_names_every_index(keys, order, j);
        if i > 0 {
            assert(precedes(keys, order[0] as int, order[i] as int));
        }
    }
}

/// `keys` holds, for each element of `x`, a key that the arithmetic gave it.
pub open spec fn keyed<T, A: Arith<T>>(ar: &A, x: Seq<T>, keys: Seq<i64>) -> bool {
    &&& keys.len() == x.len()
    &&& forall|i: int| 0 <= i < x.len() ==> key_gives(ar, x[i], #[trigger] keys[i])
}

/// Asks the arithmetic for the order key of every element, once.
pub fn order_keys<T: Copy, A: Arith<T>>(ar: &A, x: &[T]) -> (r: Vec<i64>)
    ensures
        keyed(ar, x@, r@),
{
    let mut keys: Vec<i64> = Vec::with_capacity(x.len());
    let mut i: usize = 0;
    while i < x.len()
        invariant
            0 <= i <= x.len(),
            keys@.len() == i,
            forall|k: int| 0 <= k < i ==> key_gives(ar, x@[k], #[trigger] keys@[k]),
        decreases x.len() - i,
    {
        let key = ar.order_key(x[i]);
        keys.push(key);
        i += 1;
    }
    keys
}

/// `w` is a weight of logit `v` beside the best logit `top`:
/// `exp((v - top) / temperature)`.
pub open spec fn weight_gives<T, A: Arith<T>>(ar: &A, v: T, top: T, temperature: T, w: T) -> bool {
    exists|d: T, q: T|
        sub_gives(ar, v, top, d) && #[trigger] div_gives(ar, d, temperature, q) && exp_gives(
            ar,
            q,
            w,
        )
}

/// The running sum at position `i` is the one before it plus the weight of
/// the candidate at `i` beside the first candidate.
pub open spec fn is_running_sum<T, A: Arith<T>>(
    ar: &A,
    x: Seq<T>,
    order: Seq<usize>,
    temperature: T,
    cum: Seq<T>,
    i: int,
) -> bool {
    exists|w: T|
        #[trigger] weight_gives(ar, x[order[i] as int], x[order[0] as int], temperature, w)
            && add_gives(ar, cum[i - 1], w, cum[i])
}

/// `cum` holds the running sums of the weights of the candidates, taken in
/// `order`: one for the first candidate, and for each further one the sum
/// before it plus its weight beside the first.
pub open spec fn is_cumulative<T, A: Arith<T>>(
    ar: &A,
    x: Seq<T>,
    order: Seq<usize>,
    temperature: T,
    cum: Seq<T>,
) -> bool {
    &&& cum.len() == order.len()
    &&& cum.len() > 0 ==> one_gives(ar, cum[0])
    &&& forall|i: int|
        1 <= i < cum.len() ==> #[trigger] is_running_sum(ar, x, order, temperature, cum, i)
}

/// The running sums of the candidates' weights, in the given order.
pub fn cumulative_weights<T: Copy, A: Arith<T>>(
    ar: &A,
    x: &[T],
    order: &[usize],
    temperature: T,
) -> (r: Vec<T>)
    requires
        forall|i: int| 0 <= i < order@.len() ==> (#[trigger] order@[i]) < x@.len(),
    ensures
        is_cumulative(ar, x@, order@, temperature, r@),
{
    let n = order.len();
    let mut cum: Vec<T> = Vec::with_capacity(n);
    if n == 0 {
        return cum;
    }
    let top = x[order[0]];
    let first = ar.one();
    cum.push(first);
    let mut i: usize = 1;
    while i < n
        invariant
            n == order@.len(),
            1 <= i <= n,
            cum@.len() == i,
            top == x@[order@[0] as int],
            forall|k: int| 0 <= k < order@.len() ==> (#[trigger] order@[k]) < x@.len(),
            one_gives(ar, cum@[0]),
            forall|k: int|
                1 <= k < i ==> #[trigger] is_running_sum(ar, x@, order@, temperature, cum@, k),
        decreases n - i,
    {
        let v = x[order[i]];
        let d = ar.sub(v, top);
        let q = ar.div(d, temperature);
        let w = ar.exp(q);
        let total = ar.add(cum[i - 1], w);
        let ghost before = cum@;
        cum.push(total);
        proof {
            assert(sub_gives(ar, v, top, d) && div_gives(ar, d, temperature, q) && exp_gives(
                ar,
                q,
                w,
            ));
            assert(weight_gives(ar, v, top, temperature, w) && add_gives(
                ar,
                cum@[i - 1],
                w,
                cum@[i as int],
            ));
            assert(is_running_sum(ar, x@, order@, temperature, cum@, i as int));
            assert forall|k: int| 1 <= k < i implies #[trigger] is_running_sum(
                ar,
                x@,
                order@,
                temperature,
                cum@,
                k,
            ) by {
                assert(is_running_sum(ar, x@, order@, temperature, before, k));
                let w0 = choose|w: T|
                    #[trigger] weight_gives(ar, x@[order@[k] as int], top, temperature, w)
                        && add_gives(ar, before[k - 1], w, before[k]);
                assert(weight_gives(ar, x@[order@[k] as int], top, temperature, w0) && add_gives(
                    ar,
                    cum@[k - 1],
                    w0,
                    cum@[k],
                ));
            }
        }
        i += 1;
    }
    cum
}

/// Position, among the ordered candidates, of the last one that `top_k`
/// admits.
pub open spec fn last_admitted(top_k: u32, n: nat) -> int {
    if top_k < n {
        top_k - 1
    } else {
        n - 1
    }
}

/// `limit` is a threshold for one draw: the draw times the smaller of the
/// running sum at the last candidate that `top_k` admits and the share
/// `top_p` of the whole sum.
pub open spec fn is_threshold<T, A: Arith<T>>(
    ar: &A,
    cum: Seq<T>,
    top_p: T,
    top_k: u32,
    draw: T,
    limit: T,
) -> bool {
    exists|share: T, cut: T|
        mul_gives(ar, cum.last(), top_p, share) && #[trigger] min_gives(
            ar,
            cum[last_admitted(top_k, cum.len())],
            share,
            cut,
        ) && mul_gives(ar, draw, cut, limit)
}

/// The threshold that a draw sets on the running sums.
pub fn threshold<T: Copy, A: Arith<T>>(ar: &A, cum: &[T], top_p: T, top_k: u32, draw: T) -> (r: T)
    requires
        cum@.len() > 0,
        top_k > 0,
    ensures
        is_threshold(ar, cum@, top_p, top_k, draw, r),
{
    let n = cum.len();
    let last: usize = if (top_k as usize) < n {
        top_k as usize - 1
    } else {
        n - 1
    };
    let share = ar.mul(cum[n - 1], top_p);
    let cut = ar.min(cum[last], share);
    let limit = ar.mul(draw, cut);
    assert(mul_gives(ar, cum@.last(), top_p, share) && min_gives(
        ar,
        cum@[last_admitted(top_k, cum@.len())],
        share,
        cut,
    ) && mul_gives(ar, draw, cut, limit));
    limit
}

/// Position `i` is the first whose running sum the arithmetic found to reach
/// `limit`.
pub open spec fn is_first_reaching<T, A: Arith<T>>(ar: &A, cum: Seq<T>, limit: T, i: int) -> bool {
    &&& 0 <= i < cum.len()
    &&& le_gives(ar, limit, cum[i], true)
    &&& forall|j: int| 0 <= j < i ==> le_gives(ar, limit, #[trigger] cum[j], false)
}

/// The arithmetic found no running sum to reach `limit`.
pub open spec fn none_reaching<T, A: Arith<T>>(ar: &A, cum: Seq<T>, limit: T) -> bool {
    forall|j: int| 0 <= j < cum.len() ==> le_gives(ar, limit, #[trigger] cum[j], false)
}

/// The first position whose running sum reaches `limit`, asking the
/// arithmetic for one comparison after the other.
pub fn first_reaching<T: Copy, A: Arith<T>>(ar: &A, cum: &[T], limit: T) -> (r: Option<usize>)
    ensures
        match r {
            Some(i) => is_first_reaching(ar, cum@, limit, i as int),
            None => none_reaching(ar, cum@, limit),
        },
{
    let mut i: usize = 0;
    while i < cum.len()
        invariant
            0 <= i <= cum.len(),
            forall|j: int| 0 <= j < i ==> le_gives(ar, limit, #[trigger] cum@[j], false),
        decreases cum.len() - i,
    {
        if ar.le(limit, cum[i]) {
            return Some(i);
        }
        i += 1;
    }
    None
}

/// A source of random numbers, each uniform in `[0, 1)`. Nothing is assumed
/// of what it returns.
pub trait Draw<T> {
    /// The next random number.
    fn draw(&self) -> T;
}

/// `u` is a number that `rng.draw()` can return.
pub open spec fn draw_gives<T, R: Draw<T>>(rng: &R, u: T) -> bool {
    call_ensures(R::draw, (rng,), u)
}

/// A tensor from which a token can be drawn: its last dimension holds all
/// its elements, there is at least one, and every index is a token id.
pub open spec fn samplable<T>(x: &Tensor<T>) -> bool {
    &&& x.dims().len() > 0
    &&& x.dims().last() == x@.len()
    &&& 0 < x@.len() <= u32::MAX + 1
}

/// `tok` is a token that nucleus sampling can give: the candidates are put in
/// descending order, their weights are summed up along it, the draw sets a
/// threshold, and the first candidate whose running sum reaches the threshold
/// is taken; where none does, the first candidate of all.
pub open spec fn nucleus_pick<T, A: Arith<T>>(
    ar: &A,
    x: Seq<T>,
    keys: Seq<i64>,
    top_p: T,
    top_k: u32,
    temperature: T,
    draw: T,
    tok: u32,
) -> bool {
    exists|order: Seq<usize>, cum: Seq<T>, limit: T|
        {
            &&& is_descending_order(keys, order)
            &&& #[trigger] is_cumulative(ar, x, order, temperature, cum)
            &&& #[trigger] is_threshold(ar, cum, top_p, top_k, draw, limit)
            &&& {
                ||| exists|i: int|
                    #[trigger] is_first_reaching(ar, cum, limit, i) && tok == order[i]
                ||| none_reaching(ar, cum, limit) && tok == order[0]
            }
        }
}

/// `tok` is a token that `random_sample` can return for these arguments.
///
/// The arithmetic is asked whether `temperature` and `top_p` are at most
/// zero. Where either is, or `top_k` is below two, the token is the lowest
/// index that holds the largest key; else it is a nucleus pick.
pub open spec fn sample_of<T, A: Arith<T>>(
    ar: &A,
    x: Seq<T>,
    top_p: T,
    top_k: u32,
    temperature: T,
    draw: T,
    tok: u32,
) -> bool {
    exists|keys: Seq<i64>, zero: T, cold: bool, flat: bool|
        {
            &&& #[trigger] keyed(ar, x, keys)
            &&& zero_gives(ar, zero)
            &&& #[trigger] le_gives(ar, temperature, zero, cold)
            &&& #[trigger] le_gives(ar, top_p, zero, flat)
            &&& if cold || top_k < 2 || flat {
                is_first_max(keys, tok as int)
            } else {
                nucleus_pick(ar, x, keys, top_p, top_k, temperature, draw, tok)
            }
        }
}

/// Selects one token id from a vector of logits.
///
/// `draw` is the random number of this call, uniform in `[0, 1)`. The call
/// is refused where `x` is not a vector of at least one logit.
pub fn random_sample<T: Copy, A: Arith<T>>(
    ar: &A,
    x: &Tensor<T>,
    top_p: T,
    top_k: u32,
    temperature: T,
    draw: T,
) -> (r: Result<u32, InferError>)
    ensures
        r is Ok <==> samplable(x),
        r is Err ==> r == Err::<u32, InferError>(InferError::ShapeMismatch),
        r matches Ok(tok) ==> sample_of(ar, x@, top_p, top_k, temperature, draw, tok),
{
    let shape = x.shape();
    let n = x.size();
    if shape.len() == 0 || shape[shape.len() - 1] != n || n == 0 || n - 1 > u32::MAX as usize {
        return Err(InferError::ShapeMismatch);
    }
    let logits = x.data();
    let keys = order_keys(ar, logits);
    let zero = ar.zero();
    let cold = ar.le(temperature, zero);
    let flat = ar.le(top_p, zero);
    if cold || top_k < 2 || flat {
        let best = match argmax(keys.as_slice()) {
            Some(best) => best,
            None => 0,
        };
        let tok = best as u32;
        assert(keyed(ar, x@, keys@) && zero_gives(ar, zero) && le_gives(
            ar,
            temperature,
            zero,
            cold,
        ) && le_gives(ar, top_p, zero, flat) && is_first_max(keys@, tok as int));
        return Ok(tok);
    }
    let order = descending_order(keys.as_slice());
    let cum = cumulative_weights(ar, logits, order.as_slice(), temperature);
    let limit = threshold(ar, cum.as_slice(), top_p, top_k, draw);
    let tok = match first_reaching(ar, cum.as_slice(), limit) {
        Some(i) => {
            assert(is_first_reaching(ar, cum@, limit, i as int));
            order[i] as u32
        },
        None => order[0] as u32,
    };
    assert(is_descending_order(keys@, order@) && is_cumulative(
        ar,
        x@,
        order@,
        temperature,
        cum@,
    ) && is_threshold(ar, cum@, top_p, top_k, draw, limit));
    assert(nucleus_pick(ar, x@, keys@, top_p, top_k, temperature, draw, tok));
    assert(keyed(ar, x@, keys@) && zero_gives(ar, zero) && le_gives(ar, temperature, zero, cold)
        && le_gives(ar, top_p, zero, flat));
    Ok(tok)
}

/// There is one lowest index that holds the largest key.
pub proof fn lemma_first_max_is_unique(keys: Seq<i64>, a: int, b: int)
    requires
        is_first_max(keys, a),
        is_first_max(keys, b),
    ensures
        a == b,
{
    if a < b {
        assert(keys[a] < keys[b]);
        assert(keys[b] <= keys[a]);
    } else if b < a {
        assert(keys[b] < keys[a]);
        assert(keys[a] <= keys[b]);
    }
}

/// Where the arithmetic finds the temperature to be at most zero, whatever
/// `top_p`, `top_k` and the draw, the token sampled is the lowest index that
/// holds the largest key.
pub proof fn lemma_cold_sample_is_argmax<T, A: Arith<T>>(
    ar: &A,
    x: Seq<T>,
    top_p: T,
    top_k: u32,
    temperature: T,
    draw: T,
    tok: u32,
)
    requires
        sample_of(ar, x, top_p, top_k, temperature, draw, tok),
        forall|zero: T, cold: bool|
            zero_gives(ar, zero) && #[trigger] le_gives(ar, temperature, zero, cold) ==> cold,
    ensures
        exists|keys: Seq<i64>| #[trigger] keyed(ar, x, keys) && is_first_max(keys, tok as int),
{
    let (keys, zero, cold, flat) = choose|keys: Seq<i64>, zero: T, cold: bool, flat: bool|
        {
            &&& #[trigger] keyed(ar, x, keys)
            &&& zero_gives(ar, zero)
            &&& #[trigger] le_gives(ar, temperature, zero, cold)
            &&& #[trigger] le_gives(ar, top_p, zero, flat)
            &&& if cold || top_k < 2 || flat {
                is_first_max(keys, tok as int)
            } else {
                nucleus_pick(ar, x, keys, top_p, top_k, temperature, draw, tok)
            }
        };
    assert(cold);
    assert(keyed(ar, x, keys) && is_first_max(keys, tok as int));
}

/// There is one descending order of given keys.
pub proof fn lemma_descending_order_is_unique(keys: Seq<i64>, o1: Seq<usize>, o2: Seq<usize>)
    requires
        is_descending_order(keys, o1),
        is_descending_order(keys, o2),
    ensures
        o1 == o2,
{
    assert forall|i: int| 0 <= i < o1.len() implies o1[i] == o2[i] by {
        lemma_orders_agree_up_to(keys, o1, o2, i);
    }
    assert(o1 =~= o2);
}

/// Two descending orders of given keys agree at position `i` and before it.
proof fn lemma_orders_agree_up_to(keys: Seq<i64>, o1: Seq<usize>, o2: Seq<usize>, i: int)
    requires
        is_descending_order(keys, o1),
        is_descending_order(keys, o2),
        0 <= i < o1.len(),
    ensures
        forall|k: int| 0 <= k <= i ==> o1[k] == o2[k],
    decreases i,
{
    if i > 0 {
        lemma_orders_agree_up_to(keys, o1, o2, i - 1);
    }
    let a = o1[i] as int;
    let b = o2[i] as int;
    if a != b {
        let ja = lemma_order_names_every_index(keys, o2, a);
        let jb = lemma_order_names_every_index(keys, o1, b);
        if ja < i {
            assert(o1[ja] == o2[ja]);
            assert(precedes(keys, o1[ja] as int, o1[i] as int));
        }
        if jb < i {
            assert(o1[jb] == o2[jb]);
            assert(precedes(keys, o2[jb] as int, o2[i] as int));
        }
        assert(precedes(keys, o2[i] as int, o2[ja] as int));
        assert(precedes(keys, o1[i] as int, o1[jb] as int));
    }
}

/// With functional arithmetic, the elements have one sequence of keys.
pub proof fn lemma_keyed_one_value<T, A: Arith<T>>(ar: &A, x: Seq<T>, k1: Seq<i64>, k2: Seq<i64>)
    requires
        is_functional(ar),
        keyed(ar, x, k1),
        keyed(ar, x, k2),
    ensures
        k1 == k2,
{
    assert forall|i: int| 0 <= i < x.len() implies k1[i] == k2[i] by {
        assert(key_gives(ar, x[i], k1[i]) && key_gives(ar, x[i], k2[i]));
    }
    assert(k1 =~= k2);
}

/// With functional arithmetic, the candidates in a given order have one
/// sequence of running sums.
pub proof fn lemma_cumulative_one_value<T, A: Arith<T>>(
    ar: &A,
    x: Seq<T>,
    order: Seq<usize>,
    temperature: T,
    c1: Seq<T>,
    c2: Seq<T>,
)
    requires
        is_functional(ar),
        is_cumulative(ar, x, order, temperature, c1),
        is_cumulative(ar, x, order, temperature, c2),
    ensures
        c1 == c2,
{
    assert forall|i: int| 0 <= i < c1.len() implies c1[i] == c2[i] by {
        lemma_running_sums_agree_up_to(ar, x, order, temperature, c1, c2, i);
    }
    assert(c1 =~= c2);
}

/// Two sequences of running sums agree at position `i` and before it.
proof fn lemma_running_sums_agree_up_to<T, A: Arith<T>>(
    ar: &A,
    x: Seq<T>,
    order: Seq<usize>,
    temperature: T,
    c1: Seq<T>,
    c2: Seq<T>,
    i: int,
)
    requires
        is_functional(ar),
        is_cumulative(ar, x, order, temperature, c1),
        is_cumulative(ar, x, order, temperature, c2),
        0 <= i < c1.len(),
    ensures
        forall|k: int| 0 <= k <= i ==> c1[k] == c2[k],
    decreases i,
{
    if i == 0 {
        assert(one_gives(ar, c1[0]) && one_gives(ar, c2[0]));
    } else {
        lemma_running_sums_agree_up_to(ar, x, order, temperature, c1, c2, i - 1);
        assert(is_running_sum(ar, x, order, temperature, c1, i));
        assert(is_running_sum(ar, x, order, temperature, c2, i));
        let v = x[order[i] as int];
        let top = x[order[0] as int];
        let w1 = choose|w: T|
            #[trigger] weight_gives(ar, v, top, temperature, w) && add_gives(
                ar,
                c1[i - 1],
                w,
                c1[i],
            );
        let w2 = choose|w: T|
            #[trigger] weight_gives(ar, v, top, temperature, w) && add_gives(
                ar,
                c2[i - 1],
                w,
                c2[i],
            );
        let (d1, q1) = choose|d: T, q: T|
            sub_gives(ar, v, top, d) && #[trigger] div_gives(ar, d, temperature, q) && exp_gives(
                ar,
                q,
                w1,
            );
        let (d2, q2) = choose|d: T, q: T|
            sub_gives(ar, v, top, d) && #[trigger] div_gives(ar, d, temperature, q) && exp_gives(
                ar,
                q,
                w2,
            );
        assert(d1 == d2);
        assert(q1 == q2);
        assert(w1 == w2);
        assert(c1[i - 1] == c2[i - 1]);
    }
}

/// With functional arithmetic, a draw sets one threshold.
pub proof fn lemma_threshold_one_value<T, A: Arith<T>>(
    ar: &A,
    cum: Seq<T>,
    top_p: T,
    top_k: u32,
    draw: T,
    l1: T,
    l2: T,
)
    requires
        is_functional(ar),
        is_threshold(ar, cum, top_p, top_k, draw, l1),
        is_threshold(ar, cum, top_p, top_k, draw, l2),
    ensures
        l1 == l2,
{
    let (s1, c1) = choose|share: T, cut: T|
        mul_gives(ar, cum.last(), top_p, share) && #[trigger] min_gives(
            ar,
            cum[last_admitted(top_k, cum.len())],
            share,
            cut,
        ) && mul_gives(ar, draw, cut, l1);
    let (s2, c2) = choose|share: T, cut: T|
        mul_gives(ar, cum.last(), top_p, share) && #[trigger] min_gives(
            ar,
            cum[last_admitted(top_k, cum.len())],
            share,
            cut,
        ) && mul_gives(ar, draw, cut, l2);
    assert(s1 == s2);
    assert(c1 == c2);
}

/// With functional arithmetic, `random_sample` has one result for one draw.
pub proof fn lemma_sample_one_value<T, A: Arith<T>>(
    ar: &A,
    x: Seq<T>,
    top_p: T,
    top_k: u32,
    temperature: T,
    draw: T,
    t1: u32,
    t2: u32,
)
    requires
        is_functional(ar),
        sample_of(ar, x, top_p, top_k, temperature, draw, t1),
        sample_of(ar, x, top_p, top_k, temperature, draw, t2),
    ensures
        t1 == t2,
{
    let (k1, z1, cold1, flat1) = choose|keys: Seq<i64>, zero: T, cold: bool, flat: bool|
        {
            &&& #[trigger] keyed(ar, x, keys)
            &&& zero_gives(ar, zero)
            &&& #[trigger] le_gives(ar, temperature, zero, cold)
            &&& #[trigger] le_gives(ar, top_p, zero, flat)
            &&& if cold || top_k < 2 || flat {
                is_first_max(keys, t1 as int)
            } else {
                nucleus_pick(ar, x, keys, top_p, top_k, temperature, draw, t1)
            }
        };
    let (k2, z2, cold2, flat2) = choose|keys: Seq<i64>, zero: T, cold: bool, flat: bool|
        {
            &&& #[trigger] keyed(ar, x, keys)
            &&& zero_gives(ar, zero)
            &&& #[trigger] le_gives(ar, temperature, zero, cold)
            &&& #[trigger] le_gives(ar, top_p, zero, flat)
            &&& if cold || top_k < 2 || flat {
                is_first_max(keys, t2 as int)
            } else {
                nucleus_pick(ar, x, keys, top_p, top_k, temperature, draw, t2)
            }
        };
    lemma_keyed_one_value(ar, x, k1, k2);
    assert(z1 == z2);
    assert(cold1 == cold2);
    assert(flat1 == flat2);
    if cold1 || top_k < 2 || flat1 {
        lemma_first_max_is_unique(k1, t1 as int, t2 as int);
    } else {
        let (o1, c1, l1) = choose|order: Seq<usize>, cum: Seq<T>, limit: T|
            {
                &&& is_descending_order(k1, order)
                &&& #[trigger] is_cumulative(ar, x, order, temperature, cum)
                &&& #[trigger] is_threshold(ar, cum, top_p, top_k, draw, limit)
                &&& {
                    ||| exists|i: int|
                        #[trigger] is_first_reaching(ar, cum, limit, i) && t1 == order[i]
                    ||| none_reaching(ar, cum, limit) && t1 == order[0]
                }
            };
        let (o2, c2, l2) = choose|order: Seq<usize>, cum: Seq<T>, limit: T|
            {
                &&& is_descending_order(k1, order)
                &&& #[trigger] is_cumulative(ar, x, order, temperature, cum)
                &&& #[trigger] is_threshold(ar, cum, top_p, top_k, draw, limit)
                &&& {
                    ||| exists|i: int|
                        #[trigger] is_first_reaching(ar, cum, limit, i) && t2 == order[i]
                    ||| none_reaching(ar, cum, limit) && t2 == order[0]
                }
            };
        lemma_descending_order_is_unique(k1, o1, o2);
        lemma_cumulative_one_value(ar, x, o1, temperature, c1, c2);
        lemma_threshold_one_value(ar, c1, top_p, top_k, draw, l1, l2);
        if exists|i: int| #[trigger] is_first_reaching(ar, c1, l1, i) && t1 == o1[i] {
            let i1 = choose|i: int| #[trigger] is_first_reaching(ar, c1, l1, i) && t1 == o1[i];
            if exists|i: int| #[trigger] is_first_reaching(ar, c1, l1, i) && t2 == o1[i] {
                let i2 = choose|i: int| #[trigger] is_first_reaching(ar, c1, l1, i) && t2 == o1[i];
                if i1 < i2 {
                    assert(le_gives(ar, l1, c1[i1], true) && le_gives(ar, l1, c1[i1], false));
                } else if i2 < i1 {
                    assert(le_gives(ar, l1, c1[i2], true) && le_gives(ar, l1, c1[i2], false));
                }
            } else {
                assert(le_gives(ar, l1, c1[i1], true) && le_gives(ar, l1, c1[i1], false));
            }
        } else {
            if exists|i: int| #[trigger] is_first_reaching(ar, c1, l1, i) && t2 == o1[i] {
                let i2 = choose|i: int| #[trigger] is_first_reaching(ar, c1, l1, i) && t2 == o1[i];
                assert(le_gives(ar, l1, c1[i2], true) && le_gives(ar, l1, c1[i2], false));
            }
        }
    }
}

/// The sampling parameters are greedy: `top_k` is below two, or the
/// arithmetic finds `temperature` or `top_p` to be at most zero.
pub open spec fn is_greedy<T, A: Arith<T>>(ar: &A, top_p: T, top_k: u32, temperature: T) -> bool {
    ||| top_k < 2
    ||| exists|zero: T|
        #![trigger le_gives(ar, temperature, zero, true)]
        #![trigger le_gives(ar, top_p, zero, true)]
        zero_gives(ar, zero) && (le_gives(ar, temperature, zero, true) || le_gives(
            ar,
            top_p,
            zero,
            true,
        ))
}

/// With functional arithmetic and greedy parameters, `random_sample` has one
/// result whatever is drawn: the lowest index that holds the largest key.
pub proof fn lemma_greedy_sample_one_value<T, A: Arith<T>>(
    ar: &A,
    x: Seq<T>,
    top_p: T,
    top_k: u32,
    temperature: T,
    u1: T,
    u2: T,
    t1: u32,
    t2: u32,
)
    requires
        is_functional(ar),
        is_greedy(ar, top_p, top_k, temperature),
        sample_of(ar, x, top_p, top_k, temperature, u1, t1),
        sample_of(ar, x, top_p, top_k, temperature, u2, t2),
    ensures
        t1 == t2,
{
    let (k1, z1, cold1, flat1) = choose|keys: Seq<i64>, zero: T, cold: bool, flat: bool|
        {
            &&& #[trigger] keyed(ar, x, keys)
            &&& zero_gives(ar, zero)
            &&& #[trigger] le_gives(ar, temperature, zero, cold)
            &&& #[trigger] le_gives(ar, top_p, zero, flat)
            &&& if cold || top_k < 2 || flat {
                is_first_max(keys, t1 as int)
            } else {
                nucleus_pick(ar, x, keys, top_p, top_k, temperature, u1, t1)
            }
        };
    let (k2, z2, cold2, flat2) = choose|keys: Seq<i64>, zero: T, cold: bool, flat: bool|
        {
            &&& #[trigger] keyed(ar, x, keys)
            &&& zero_gives(ar, zero)
            &&& #[trigger] le_gives(ar, temperature, zero, cold)
            &&& #[trigger] le_gives(ar, top_p, zero, flat)
            &&& if cold || top_k < 2 || flat {
                is_first_max(keys, t2 as int)
            } else {
                nucleus_pick(ar, x, keys, top_p, top_k, temperature, u2, t2)
            }
        };
    lemma_keyed_one_value(ar, x, k1, k2);
    assert(z1 == z2);
    if top_k >= 2 {
        let zero = choose|zero: T|
            #![trigger le_gives(ar, temperature, zero, true)]
            #![trigger le_gives(ar, top_p, zero, true)]
            zero_gives(ar, zero) && (le_gives(ar, temperature, zero, true) || le_gives(
                ar,
                top_p,
                zero,
                true,
            ));
        assert(zero == z1);
        assert(cold1 || flat1);
        assert(cold2 || flat2);
    }
    lemma_first_max_is_unique(k1, t1 as int, t2 as int);
}

} // verus!
