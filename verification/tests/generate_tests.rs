use lm_infer::error::InferError;
use lm_infer::generate::{generate, phase, window, Phase, Step};

const EOS: u32 = 2;

/// Emits 10, 11, 12, ... and records every window it is fed.
struct Recorder;

impl Step<Vec<Vec<u32>>> for Recorder {
    fn step(&self, seen: Vec<Vec<u32>>, fed: Vec<u32>) -> (Vec<Vec<u32>>, Result<u32, InferError>) {
        let token = 10 + seen.len() as u32;
        let mut seen = seen;
        seen.push(fed);
        (seen, Ok(token))
    }
}

/// Emits 20, 21, ... and the end-of-sequence token as its `end`-th token.
struct EndsAt {
    end: u32,
}

impl Step<u32> for EndsAt {
    fn step(&self, count: u32, _fed: Vec<u32>) -> (u32, Result<u32, InferError>) {
        let token = if count + 1 == self.end { EOS } else { 20 + count };
        (count + 1, Ok(token))
    }
}

/// Fails at its `at`-th step.
struct FailsAt {
    at: u32,
}

impl Step<u32> for FailsAt {
    fn step(&self, count: u32, _fed: Vec<u32>) -> (u32, Result<u32, InferError>) {
        if count + 1 == self.at {
            (count + 1, Err(InferError::CacheCapacityExceeded))
        } else {
            (count + 1, Ok(5))
        }
    }
}

/// A token that depends on the state and on the window.
struct Mixer;

impl Step<u32> for Mixer {
    fn step(&self, state: u32, fed: Vec<u32>) -> (u32, Result<u32, InferError>) {
        let token = (state * 31 + fed.iter().sum::<u32>()) % 7 + 3;
        (state + token, Ok(token))
    }
}

#[test]
fn phase_follows_what_was_emitted() {
    assert_eq!(phase(&[], 3, EOS), Phase::Prefill);
    assert_eq!(phase(&[5], 3, EOS), Phase::Decode);
    assert_eq!(phase(&[5, EOS], 3, EOS), Phase::Stop);
    assert_eq!(phase(&[5, 6, 7], 3, EOS), Phase::Stop);
    assert_eq!(phase(&[], 0, EOS), Phase::Stop);
    assert_eq!(phase(&[EOS, 5], 3, EOS), Phase::Decode);
}

#[test]
fn window_is_the_prompt_then_the_last_token() {
    assert_eq!(window(&[7, 8, 9], &[]), vec![7, 8, 9]);
    assert_eq!(window(&[7, 8, 9], &[4]), vec![4]);
    assert_eq!(window(&[7, 8, 9], &[4, 5]), vec![5]);
}

#[test]
fn generate_stops_at_the_limit() {
    let (seen, out) = generate(&Recorder, Vec::new(), &[7, 8, 9], 4, EOS);
    assert_eq!(out, Ok(vec![10, 11, 12, 13]));
    assert_eq!(seen, vec![vec![7, 8, 9], vec![10], vec![11], vec![12]]);
}

#[test]
fn generate_stops_early_at_the_end_of_sequence() {
    let (count, out) = generate(&EndsAt { end: 3 }, 0, &[1], 10, EOS);
    assert_eq!(out, Ok(vec![20, 21, EOS]));
    assert_eq!(count, 3);
    let (count, out) = generate(&EndsAt { end: 1 }, 0, &[1], 10, EOS);
    assert_eq!(out, Ok(vec![EOS]));
    assert_eq!(count, 1);
}

#[test]
fn generate_never_emits_more_than_asked_for() {
    for limit in 0..6usize {
        let (_, out) = generate(&EndsAt { end: 4 }, 0, &[1], limit, EOS);
        let out = out.unwrap();
        assert_eq!(out.len(), limit.min(4));
        if out.len() < limit {
            assert_eq!(out.last(), Some(&EOS));
        }
        assert!(out.iter().rev().skip(1).all(|t| *t != EOS));
    }
}

#[test]
fn generate_of_no_tokens_makes_no_step() {
    let (count, out) = generate(&EndsAt { end: 9 }, 0, &[1, 2], 0, EOS);
    assert_eq!(out, Ok(vec![]));
    assert_eq!(count, 0);
}

#[test]
fn generate_hands_an_error_on() {
    let (count, out) = generate(&FailsAt { at: 2 }, 0, &[1, 2], 5, EOS);
    assert_eq!(out, Err(InferError::CacheCapacityExceeded));
    assert_eq!(count, 2);
}

#[test]
fn generate_repeats_itself() {
    let first = generate(&Mixer, 1, &[4, 5, 6], 8, EOS);
    let second = generate(&Mixer, 1, &[4, 5, 6], 8, EOS);
    assert_eq!(first, second);
    assert_eq!(first.1.map(|v| v.len()), Ok(8));
}
