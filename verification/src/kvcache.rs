//! The key/value cache: what attention has seen so far, layer by layer.

use crate::error::InferError;
use crate::layout::append_row;
use vstd::prelude::*;

verus! {

/// Keys and values of the positions seen so far, layer by layer.
///
/// Each layer holds one key vector and one value vector of `width` elements
/// per position, in the order in which they were appended, and never more
/// than `capacity` positions. Nothing is ever rewritten or removed.
pub struct KVCache<T> {
    keys: Vec<Vec<T>>,
    values: Vec<Vec<T>>,
    cursors: Vec<usize>,
    max_seq_len: usize,
    width: usize,
}

impl<T> KVCache<T> {
    #[verifier::type_invariant]
    spec fn well_formed(&self) -> bool {
        &&& self.keys@.len() == self.cursors@.len()
        &&& self.values@.len() == self.cursors@.len()
        &&& forall|l: int|
            0 <= l < self.cursors@.len() ==> {
                &&& (#[trigger] self.cursors@[l]) <= self.max_seq_len
                &&& self.keys@[l]@.len() == self.cursors@[l] * self.width
                &&& self.values@[l]@.len() == self.cursors@[l] * self.width
            }
    }

    /// Number of layers.
    pub closed spec fn layers(&self) -> nat {
        self.cursors@.len()
    }

    /// Largest number of positions that a layer can hold.
    pub closed spec fn capacity(&self) -> nat {
        self.max_seq_len as nat
    }

    /// Number of elements of one key or value vector.
    pub closed spec fn width(&self) -> nat {
        self.width as nat
    }

    /// Number of positions that `layer` holds.
    pub closed spec fn cursor(&self, layer: int) -> nat {
        self.cursors@[layer] as nat
    }

    /// The key vectors of `layer`, one after the other.
    pub closed spec fn keys_of(&self, layer: int) -> Seq<T> {
        self.keys@[layer]@
    }

    /// The value vectors of `layer`, one after the other.
    pub closed spec fn values_of(&self, layer: int) -> Seq<T> {
        self.values@[layer]@
    }

    /// There is a layer `layer`, and `key` and `value` are vectors of the
    /// length that the cache holds.
    pub open spec fn takes(&self, layer: usize, key: Seq<T>, value: Seq<T>) -> bool {
        &&& layer < self.layers()
        &&& key.len() == self.width()
        &&& value.len() == self.width()
    }
}

impl<T: Copy> KVCache<T> {
    /// An empty cache of `n_layers` layers, each with room for `max_seq_len`
    /// positions of `width` elements.
    pub fn new(n_layers: usize, max_seq_len: usize, width: usize) -> (r: Self)
        ensures
            r.layers() == n_layers,
            r.capacity() == max_seq_len,
            r.width() == width,
            forall|l: int|
                #![trigger r.cursor(l)]
                #![trigger r.keys_of(l)]
                #![trigger r.values_of(l)]
                0 <= l < n_layers ==> {
                    &&& r.cursor(l) == 0
                    &&& r.keys_of(l).len() == 0
                    &&& r.values_of(l).len() == 0
                },
    {
        let room: usize = match max_seq_len.checked_mul(width) {
            Some(n) => n,
            None => 0,
        };
        let mut keys: Vec<Vec<T>> = Vec::with_capacity(n_layers);
        let mut values: Vec<Vec<T>> = Vec::with_capacity(n_layers);
        let mut cursors: Vec<usize> = Vec::with_capacity(n_layers);
        let mut l: usize = 0;
        while l < n_layers
            invariant
                0 <= l <= n_layers,
                keys@.len() == l,
                values@.len() == l,
                cursors@.len() == l,
                forall|k: int|
                    0 <= k < l ==> (#[trigger] cursors@[k]) == 0 && keys@[k]@.len() == 0
                        && values@[k]@.len() == 0,
            decreases n_layers - l,
        {
            keys.push(Vec::with_capacity(room));
            values.push(Vec::with_capacity(room));
            cursors.push(0);
            l += 1;
        }
        assert forall|k: int| 0 <= k < cursors@.len() implies (#[trigger] cursors@[k]) * width
            == 0 by {
            assert(0 * width == 0) by (nonlinear_arith);
        }
        KVCache { keys, values, cursors, max_seq_len, width }
    }

    /// Number of layers.
    pub fn n_layers(&self) -> (r: usize)
        ensures
            r == self.layers(),
    {
        self.cursors.len()
    }

    /// Largest number of positions that a layer can hold.
    pub fn max_seq_len(&self) -> (r: usize)
        ensures
            r == self.capacity(),
    {
        self.max_seq_len
    }

    /// Number of elements of one key or value vector.
    pub fn vector_len(&self) -> (r: usize)
        ensures
            r == self.width(),
    {
        self.width
    }

    /// Number of positions that `layer` holds; `None` where there is no such
    /// layer.
    pub fn len(&self, layer: usize) -> (r: Option<usize>)
        ensures
            r is Some <==> layer < self.layers(),
            r matches Some(n) ==> n == self.cursor(layer as int) && n <= self.capacity()
                && self.keys_of(layer as int).len() == n * self.width() && self.values_of(
                layer as int,
            ).len() == n * self.width(),
    {
        proof {
            use_type_invariant(self);
        }
        if layer < self.cursors.len() {
            Some(self.cursors[layer])
        } else {
            None
        }
    }

    /// The keys of the positions that `layer` holds, and of no other;
    /// `None` where there is no such layer.
    pub fn keys(&self, layer: usize) -> (r: Option<&[T]>)
        ensures
            r is Some <==> layer < self.layers(),
            r matches Some(s) ==> s@ == self.keys_of(layer as int) && s@.len() == self.cursor(
                layer as int,
            ) * self.width(),
    {
        proof {
            use_type_invariant(self);
        }
        if layer < self.keys.len() {
            Some(self.keys[layer].as_slice())
        } else {
            None
        }
    }

    /// The values of the positions that `layer` holds, and of no other;
    /// `None` where there is no such layer.
    pub fn values(&self, layer: usize) -> (r: Option<&[T]>)
        ensures
            r is Some <==> layer < self.layers(),
            r matches Some(s) ==> s@ == self.values_of(layer as int) && s@.len() == self.cursor(
                layer as int,
            ) * self.width(),
    {
        proof {
            use_type_invariant(self);
        }
        if layer < self.values.len() {
            Some(self.values[layer].as_slice())
        } else {
            None
        }
    }

    /// Appends the key and the value of one new position to `layer`.
    ///
    /// Refused with `ShapeMismatch` where there is no such layer or a vector
    /// has not `width` elements, else with `CacheCapacityExceeded` where the
    /// layer is full. A refused call changes nothing.
    pub fn append(&mut self, layer: usize, key: &[T], value: &[T]) -> (r: Result<(), InferError>)
        ensures
            final(self).layers() == old(self).layers(),
            final(self).capacity() == old(self).capacity(),
            final(self).width() == old(self).width(),
            forall|l: int|
                #![trigger final(self).cursor(l)]
                #![trigger final(self).keys_of(l)]
                #![trigger final(self).values_of(l)]
                0 <= l < old(self).layers() && (l != layer || r is Err) ==> {
                    &&& final(self).cursor(l) == old(self).cursor(l)
                    &&& final(self).keys_of(l) == old(self).keys_of(l)
                    &&& final(self).values_of(l) == old(self).values_of(l)
                },
            r == Err::<(), InferError>(InferError::ShapeMismatch) <==> !old(self).takes(
                layer,
                key@,
                value@,
            ),
            r == Err::<(), InferError>(InferError::CacheCapacityExceeded) <==> old(self).takes(
                layer,
                key@,
                value@,
            ) && old(self).cursor(layer as int) == old(self).capacity(),
            r is Ok <==> old(self).takes(layer, key@, value@) && old(self).cursor(layer as int)
                < old(self).capacity(),
            r is Ok ==> {
                &&& final(self).cursor(layer as int) == old(self).cursor(layer as int) + 1
                &&& final(self).keys_of(layer as int) == old(self).keys_of(layer as int) + key@
                &&& final(self).values_of(layer as int) == old(self).values_of(layer as int)
                    + value@
            },
    {
        proof {
            use_type_invariant(&*self);
        }
        if layer >= self.cursors.len() || key.len() != self.width || value.len() != self.width {
            return Err(InferError::ShapeMismatch);
        }
        let at = self.cursors[layer];
        if at >= self.max_seq_len {
            return Err(InferError::CacheCapacityExceeded);
        }
        let mut taken = KVCache {
            keys: Vec::new(),
            values: Vec::new(),
            cursors: Vec::new(),
            max_seq_len: 0,
            width: 0,
        };
        std::mem::swap(self, &mut taken);
        let KVCache { mut keys, mut values, mut cursors, max_seq_len, width } = taken;
        append_row(&mut keys[layer], key);
        append_row(&mut values[layer], value);
        cursors.set(layer, at + 1);
        proof {
            assert((at + 1) * width == at * width + width) by (nonlinear_arith);
            assert forall|l: int| 0 <= l < cursors@.len() implies {
                &&& (#[trigger] cursors@[l]) <= max_seq_len
                &&& keys@[l]@.len() == cursors@[l] * width
                &&& values@[l]@.len() == cursors@[l] * width
            } by {
                if l != layer {
                    assert(cursors@[l] == old(self).cursors@[l]);
                }
            }
        }
        *self = KVCache { keys, values, cursors, max_seq_len, width };
        Ok(())
    }
}

} // verus!
