use lm_infer::error::InferError;
use lm_infer::kvcache::KVCache;

#[test]
fn new_cache_is_empty() {
    let cache = KVCache::<u32>::new(2, 3, 4);
    assert_eq!(cache.n_layers(), 2);
    assert_eq!(cache.max_seq_len(), 3);
    assert_eq!(cache.len(0), Some(0));
    assert_eq!(cache.len(1), Some(0));
    assert_eq!(cache.len(2), None);
    assert_eq!(cache.keys(0), Some(&[][..]));
    assert_eq!(cache.values(1), Some(&[][..]));
    assert_eq!(cache.keys(2), None);
    assert_eq!(cache.values(2), None);
}

#[test]
fn append_advances_the_cursor_by_one() {
    let mut cache = KVCache::<u32>::new(2, 3, 2);
    assert_eq!(cache.append(1, &[1, 2], &[10, 20]), Ok(()));
    assert_eq!(cache.len(1), Some(1));
    assert_eq!(cache.len(0), Some(0));
    assert_eq!(cache.append(1, &[3, 4], &[30, 40]), Ok(()));
    assert_eq!(cache.len(1), Some(2));
    assert_eq!(cache.keys(1), Some(&[1, 2, 3, 4][..]));
    assert_eq!(cache.values(1), Some(&[10, 20, 30, 40][..]));
    assert_eq!(cache.keys(0), Some(&[][..]));
}

#[test]
fn append_beyond_the_capacity_fails() {
    let mut cache = KVCache::<u32>::new(1, 2, 1);
    assert_eq!(cache.append(0, &[1], &[2]), Ok(()));
    assert_eq!(cache.append(0, &[3], &[4]), Ok(()));
    assert_eq!(
        cache.append(0, &[5], &[6]),
        Err(InferError::CacheCapacityExceeded)
    );
    assert_eq!(cache.len(0), Some(2));
    assert_eq!(cache.keys(0), Some(&[1, 3][..]));
    assert_eq!(cache.values(0), Some(&[2, 4][..]));
}

#[test]
fn append_refuses_wrong_layer_or_width() {
    let mut cache = KVCache::<u32>::new(1, 2, 2);
    assert_eq!(cache.append(1, &[1, 2], &[3, 4]), Err(InferError::ShapeMismatch));
    assert_eq!(cache.append(0, &[1], &[3, 4]), Err(InferError::ShapeMismatch));
    assert_eq!(cache.append(0, &[1, 2], &[3, 4, 5]), Err(InferError::ShapeMismatch));
    assert_eq!(cache.len(0), Some(0));
}

#[test]
fn a_cache_without_room_takes_nothing() {
    let mut cache = KVCache::<u32>::new(1, 0, 2);
    assert_eq!(
        cache.append(0, &[1, 2], &[3, 4]),
        Err(InferError::CacheCapacityExceeded)
    );
}
