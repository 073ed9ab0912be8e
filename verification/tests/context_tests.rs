use std::rc::Rc;
use vip::context::{common_prefix_len, Context};
use vip::dict::Encoding;
use vip::sentence_models::{Candidate, Scorer, State, HMM};

/// Scores every candidate alike: the beam keeps the first candidate of each context.
struct Flat;

impl Scorer for Flat {
    type Score = i32;
    fn score(&self, _parent: Option<i32>, _c: &Candidate) -> (i32, u64) {
        (0, 0)
    }
}

fn ctx_with(words: &str) -> Context<HMM<Flat>> {
    let e = Encoding::load("ab 1\nb 2\n", words).unwrap();
    Context::new(e, Flat)
}

fn ctx() -> Context<HMM<Flat>> {
    ctx_with("你\n好\n")
}

fn shape(m: &HMM<Flat>) -> (u16, Vec<u8>) {
    (m.len(), m.tokens().clone())
}

#[test]
fn common_prefix_lengths() {
    assert_eq!(common_prefix_len(b"abcd", b"abxd"), 2);
    assert_eq!(common_prefix_len(b"ab", b"abc"), 2);
    assert_eq!(common_prefix_len(b"", b"abc"), 0);
}

#[test]
fn set_input_feeds_tokens_and_checkpoints() {
    let mut c = ctx();
    c.set_input(b"abcdefg");
    assert_eq!(c.input(), &b"abcdefg".to_vec());
    assert_eq!(shape(c.model().unwrap()), (7, b"fg".to_vec()));
    let cps: Vec<(u16, Vec<u8>)> = c.checkpoints().iter().map(shape).collect();
    assert_eq!(cps, vec![(3, b"bc".to_vec()), (6, b"ef".to_vec())]);
}

#[test]
fn set_input_replays_from_last_valid_checkpoint() {
    let mut c = ctx();
    c.set_input(b"abcdefg");
    c.set_input(b"abcdxy");
    assert_eq!(shape(c.model().unwrap()), (6, b"xy".to_vec()));
    let cps: Vec<(u16, Vec<u8>)> = c.checkpoints().iter().map(shape).collect();
    assert_eq!(cps, vec![(3, b"bc".to_vec()), (6, b"xy".to_vec())]);
    c.set_input(b"ab");
    assert_eq!(c.checkpoints().len(), 0);
    assert_eq!(shape(c.model().unwrap()), (2, b"ab".to_vec()));
}

fn states_of(m: &HMM<Flat>) -> Vec<Rc<State<(i32, u64)>>> {
    m.states().iter().flat_map(|g| g.iter().map(|(_, s)| s.clone())).collect()
}

#[test]
fn typing_on_keeps_checkpoints() {
    let mut c = ctx();
    c.set_input(b"abbabb");
    let before: Vec<Vec<Rc<State<(i32, u64)>>>> = c.checkpoints().iter().map(states_of).collect();
    c.set_input(b"abbabbab");
    assert_eq!(c.checkpoints().len(), 2);
    let after: Vec<Vec<Rc<State<(i32, u64)>>>> = c.checkpoints().iter().map(states_of).collect();
    // the same states: the checkpoints were kept, not rebuilt
    assert_eq!(after.len(), before.len());
    for (x, y) in after.iter().zip(before.iter()) {
        assert!(!x.is_empty());
        assert_eq!(x.len(), y.len());
        assert!(x.iter().zip(y.iter()).all(|(p, q)| Rc::ptr_eq(p, q)));
    }
    assert_eq!(shape(c.model().unwrap()), (8, b"ab".to_vec()));
}

#[test]
fn incremental_input_matches_fresh_input() {
    let mut inc = ctx();
    inc.set_input(b"abab");
    inc.set_input(b"ababbab");
    let mut fresh = ctx();
    fresh.set_input(b"ababbab");
    assert_eq!(shape(inc.model().unwrap()), shape(fresh.model().unwrap()));
    assert_eq!(inc.sentence_candidate(), fresh.sentence_candidate());
    let a: Vec<(u16, Vec<u8>)> = inc.checkpoints().iter().map(shape).collect();
    let b: Vec<(u16, Vec<u8>)> = fresh.checkpoints().iter().map(shape).collect();
    assert_eq!(a, b);
}

#[test]
fn set_hist_maps_characters_and_drops_models() {
    let mut c = ctx();
    c.set_input(b"abcd");
    c.set_hist(&['好', '你']);
    assert_eq!(c.hist(), &vec![2, 1]);
    assert!(c.model().is_none());
    assert_eq!(c.checkpoints().len(), 0);
    c.set_input(b"a");
    assert_eq!(c.model().unwrap().hist(), [0, 0, 2, 1]);
}

#[test]
fn sentence_candidate_spells_the_sentence() {
    let mut c = ctx();
    assert_eq!(c.sentence_candidate(), Ok(None));
    c.set_input(b"ab");
    assert_eq!(c.sentence_candidate(), Ok(Some((2, vec!['你', '好']))));
    let mut bad = ctx_with("你\n");
    bad.set_input(b"ab");
    assert_eq!(bad.sentence_candidate(), Err(2));
    let mut empty = ctx();
    empty.set_input(b"");
    assert_eq!(empty.sentence_candidate(), Ok(None));
    let mut none = ctx();
    none.set_input(b"x");
    assert_eq!(none.sentence_candidate(), Ok(None));
}

#[test]
fn read_sentence_gives_words_or_first_unknown_id() {
    let mut c = ctx();
    assert_eq!(c.read_sentence(None), Ok(None));
    c.set_input(b"ab");
    assert_eq!(c.read_sentence(Some(vec![2, 1])), Ok(Some((2, vec!['好', '你']))));
    assert_eq!(c.read_sentence(Some(vec![])), Ok(Some((2, vec![]))));
    assert_eq!(c.read_sentence(Some(vec![1, 3, 0])), Err(3));
    assert_eq!(c.read_sentence(Some(vec![0, 3])), Err(0));
}
