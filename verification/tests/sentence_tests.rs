use std::rc::Rc;
use vip::dict::Encoding;
use vip::sentence_models::{
    history_window, rank_order, rotate_insert, select_beam, shift_key, trace_sequence, Candidate, Scorer, SentenceModel, State, HMM,
    KEEP_N_BEST,
};

fn enc() -> Encoding {
    Encoding::load("ni 3 1\nnihao 2\nn 4\nhao 5 6000\n", "你\n好\n尼\n嗯\n号\n").unwrap()
}

#[test]
fn rotate_insert_grows_then_slides() {
    let mut v = vec![1, 2];
    rotate_insert(&mut v, 3, 3);
    assert_eq!(v, vec![1, 2, 3]);
    rotate_insert(&mut v, 3, 4);
    assert_eq!(v, vec![2, 3, 4]);
    let mut w: Vec<u8> = vec![];
    rotate_insert(&mut w, 1, 9);
    assert_eq!(w, vec![9]);
    rotate_insert(&mut w, 1, 8);
    assert_eq!(w, vec![8]);
}

#[test]
fn history_window_keeps_last_four() {
    assert_eq!(history_window(&[]), [0, 0, 0, 0]);
    assert_eq!(history_window(&[5, 6]), [0, 0, 5, 6]);
    assert_eq!(history_window(&[1, 2, 3, 4, 5, 6]), [3, 4, 5, 6]);
}

#[test]
fn shift_key_moves_word_in() {
    assert_eq!(shift_key(&[1, 2, 3, 4], 9), [2, 3, 4, 9]);
}

#[test]
fn trace_follows_parents() {
    let a = Rc::new(State { total_len: 1, total_p: -1.0f32, len: 1, id: 4, parent: None });
    let b = Rc::new(State { total_len: 2, total_p: -2.0f32, len: 1, id: 7, parent: Some(a.clone()) });
    let c = State { total_len: 4, total_p: -3.0f32, len: 2, id: 2, parent: Some(b) };
    assert_eq!(trace_sequence(&c), vec![4, 7, 2]);
    assert_eq!(trace_sequence(&*a), vec![4]);
}

/// Scores every candidate alike: the beam keeps the first candidate of each context.
struct Flat;

impl Scorer for Flat {
    type Score = i32;
    fn score(&self, _parent: Option<i32>, _c: &Candidate) -> (i32, u64) {
        (0, 0)
    }
}

/// Prefers higher word ids.
struct ById;

impl Scorer for ById {
    type Score = i32;
    fn score(&self, _parent: Option<i32>, c: &Candidate) -> (i32, u64) {
        (c.id as i32 * 10, c.id as u64)
    }
}

/// Prefers words spelled by more tokens.
struct ByLen;

impl Scorer for ByLen {
    type Score = i32;
    fn score(&self, _parent: Option<i32>, c: &Candidate) -> (i32, u64) {
        (c.len as i32, c.len as u64)
    }
}

/// Adds the word id to the score of the state extended.
struct Sum;

impl Scorer for Sum {
    type Score = i32;
    fn score(&self, parent: Option<i32>, c: &Candidate) -> (i32, u64) {
        let t = parent.unwrap_or(0) + c.id as i32;
        (t, t as u64)
    }
}

fn ids_of<D: Scorer>(h: &HMM<D>, g: usize) -> Vec<u16> {
    h.states()[g].iter().map(|(_, s)| s.id).collect()
}

#[test]
fn first_candidates_start_sentences() {
    let e = enc();
    let mut h: HMM<Flat> = HMM::new(&e, &Flat);
    h.set_history(&[7, 8, 9, 10, 11]);
    assert_eq!(h.hist(), [8, 9, 10, 11]);
    h.append(&e, &Flat, b'n');
    assert_eq!(h.len(), 1);
    assert_eq!(h.tokens(), &vec![b'n']);
    assert_eq!(h.states().len(), 1);
    assert_eq!(ids_of(&h, 0), vec![1, 2, 3, 4]);
    for (k, s) in &h.states()[0] {
        assert!(s.parent.is_none());
        assert_eq!(*k, [9, 10, 11, s.id]);
        assert_eq!(s.len, 1);
        assert_eq!(s.total_len, 1);
    }
}

#[test]
fn first_words_spanning_all_tokens() {
    let e = enc();
    let mut h: HMM<Flat> = HMM::new(&e, &Flat);
    h.append(&e, &Flat, b'n');
    h.append(&e, &Flat, b'i');
    // no word starts with "i", so only first words spelled from "ni" remain
    assert_eq!(h.states().len(), 2);
    assert_eq!(ids_of(&h, 1), vec![1, 2, 3]);
    assert!(h.states()[1].iter().all(|(_, s)| s.parent.is_none() && s.len == 2));
    let cs = h.candidates(&e);
    assert!(cs.iter().all(|c| c.len <= 2));
    assert_eq!(h.get_sentence(&e, &Flat), Some(vec![1]));
}

#[test]
fn rare_words_are_not_candidates() {
    let e = enc();
    let mut h: HMM<Flat> = HMM::new(&e, &Flat);
    h.append(&e, &Flat, b'h');
    assert_eq!(ids_of(&h, 0), vec![5]);
}

#[test]
fn later_candidates_extend_generations() {
    let e = enc();
    let mut h: HMM<Flat> = HMM::new(&e, &Flat);
    h.append(&e, &Flat, b'h');
    h.append(&e, &Flat, b'n');
    // the state "h" is extended by the words spelled from "n"; no sentence starts at "hn"
    assert_eq!(h.states().len(), 2);
    let got: Vec<([u16; 4], u16, u16, u16)> =
        h.states()[1].iter().map(|(k, s)| (*k, s.id, s.len, s.total_len)).collect();
    assert_eq!(
        got,
        vec![([0, 0, 5, 1], 1, 1, 2), ([0, 0, 5, 2], 2, 1, 2), ([0, 0, 5, 3], 3, 1, 2), ([0, 0, 5, 4], 4, 1, 2)]
    );
    for (_, s) in &h.states()[1] {
        assert!(Rc::ptr_eq(s.parent.as_ref().unwrap(), &h.states()[0][0].1));
    }
    assert_eq!(h.get_sentence(&e, &Flat), Some(vec![5, 1]));
}

#[test]
fn scorer_orders_the_beam_best_first() {
    let e = enc();
    let mut h: HMM<ById> = HMM::new(&e, &ById);
    h.append(&e, &ById, b'n');
    assert_eq!(ids_of(&h, 0), vec![4, 3, 2, 1]);
    assert_eq!(h.states()[0][0].1.total_p, (40, 4));
    assert_eq!(h.get_sentence(&e, &ById), Some(vec![4]));
}

fn clash() -> Encoding {
    // the word 3 after "a" (spelled "bc") and after "ab" (spelled "c") ends in the same context
    Encoding::load("a 1\nab 1\nb 2\nbc 3\nc 3\n", "x\ny\nz\n").unwrap()
}

#[test]
fn beam_keeps_the_best_state_of_each_context() {
    let e = clash();
    let mut h: HMM<Flat> = HMM::new(&e, &Flat);
    h.append_all(&e, &Flat, b"abc");
    let last = h.states().last().unwrap();
    let keys: Vec<[u16; 4]> = last.iter().map(|(k, _)| *k).collect();
    assert_eq!(keys, vec![[0, 1, 2, 3], [0, 1, 3, 3], [0, 0, 1, 3]]);
    // on equal scores the first candidate of a context stays: "ab" then "c"
    assert_eq!(last[2].1.len, 1);
    let mut h: HMM<ByLen> = HMM::new(&e, &ByLen);
    h.append_all(&e, &ByLen, b"abc");
    let last = h.states().last().unwrap();
    let got: Vec<([u16; 4], u16)> = last.iter().map(|(k, s)| (*k, s.len)).collect();
    // "a" then "bc" scores higher and goes first
    assert_eq!(got, vec![([0, 0, 1, 3], 2), ([0, 1, 2, 3], 1), ([0, 1, 3, 3], 1)]);
    assert_eq!(h.get_sentence(&e, &ByLen), Some(vec![1, 3]));
}

#[test]
fn beam_is_cut_to_keep_n_best() {
    let ids: Vec<String> = (1..=300).map(|i| i.to_string()).collect();
    let words: String = (0..300).map(|i| format!("{}\n", char::from_u32(0x4e00 + i).unwrap())).collect();
    let e = Encoding::load(&format!("a {}\n", ids.join(" ")), &words).unwrap();
    let mut h: HMM<Flat> = HMM::new(&e, &Flat);
    h.append(&e, &Flat, b'a');
    assert_eq!(h.states()[0].len(), KEEP_N_BEST);
    assert_eq!(ids_of(&h, 0), (1..=256).collect::<Vec<u16>>());
    let mut h: HMM<ById> = HMM::new(&e, &ById);
    h.append(&e, &ById, b'a');
    assert_eq!(ids_of(&h, 0), (45..=300).rev().collect::<Vec<u16>>());
}

#[test]
fn select_beam_on_given_ranks() {
    let c = |key: [u16; 4], id: u16| Candidate { key, context: [0, 0, 0, 0], parent: None, id, len: 1 };
    let cands = vec![c([0, 0, 0, 1], 1), c([0, 0, 0, 2], 2), c([0, 0, 0, 1], 3), c([0, 0, 0, 4], 4)];
    assert_eq!(select_beam(&cands, &vec![5, 1, 9, 1]), vec![2, 1, 3]);
    assert_eq!(select_beam(&cands, &vec![5, 1, 5, 7]), vec![3, 0, 1]);
    assert_eq!(select_beam(&vec![], &vec![]), Vec::<usize>::new());
}

#[test]
fn generations_are_bounded_by_longest_spelling() {
    let e = Encoding::load("ab 1\n", "x\n").unwrap();
    let mut h: HMM<Flat> = HMM::new(&e, &Flat);
    h.append_all(&e, &Flat, b"abab");
    assert_eq!(h.len(), 4);
    assert_eq!(h.tokens(), &b"ab".to_vec());
    assert!(h.states().len() <= 2);
}

#[test]
fn restart_keeps_newest_generation_one_token_longer() {
    let e = enc();
    let mut h: HMM<Flat> = HMM::new(&e, &Flat);
    h.append(&e, &Flat, b'h');
    h.append(&e, &Flat, b'n');
    let before: Vec<([u16; 4], u16, u16, (i32, u64))> =
        h.states()[1].iter().map(|(k, s)| (*k, s.id, s.len, s.total_p)).collect();
    h.append(&e, &Flat, b'\'');
    assert_eq!(h.len(), 3);
    assert_eq!(h.tokens(), &b"hn'".to_vec());
    let st = h.states();
    assert_eq!(st.len(), 1);
    let after: Vec<([u16; 4], u16, u16, (i32, u64))> = st[0].iter().map(|(k, s)| (*k, s.id, s.len, s.total_p)).collect();
    assert_eq!(after, before);
    assert!(st[0].iter().all(|(_, s)| s.total_len == 3));
}

#[test]
fn restart_without_states() {
    let e = enc();
    let mut h: HMM<Flat> = HMM::new(&e, &Flat);
    h.append(&e, &Flat, b'\'');
    assert_eq!(h.states().len(), 0);
    assert_eq!(h.get_sentence(&e, &Flat), None);
}

#[test]
fn checkpoint_is_an_equal_copy() {
    let e = enc();
    let mut h: HMM<Flat> = HMM::new(&e, &Flat);
    h.set_history(&[3]);
    h.append_all(&e, &Flat, b"hn");
    let c = h.checkpoint();
    assert_eq!(c.tokens(), h.tokens());
    assert_eq!(c.len(), h.len());
    assert_eq!(c.hist(), h.hist());
    assert_eq!(c.states().len(), h.states().len());
    for (g, gen) in c.states().iter().enumerate() {
        for (j, (k, s)) in gen.iter().enumerate() {
            assert_eq!(*k, h.states()[g][j].0);
            assert!(Rc::ptr_eq(s, &h.states()[g][j].1));
        }
    }
    assert_eq!(c.get_sentence(&e, &Flat), h.get_sentence(&e, &Flat));
}

#[test]
fn scores_build_on_the_parent_state() {
    let e = enc();
    let mut h: HMM<Sum> = HMM::new(&e, &Sum);
    h.append_all(&e, &Sum, b"hn");
    let got: Vec<(u16, i32)> = h.states()[1].iter().map(|(_, s)| (s.id, s.total_p.0)).collect();
    assert_eq!(got, vec![(4, 9), (3, 8), (2, 7), (1, 6)]);
    assert_eq!(h.get_sentence(&e, &Sum), Some(vec![5, 4]));
}

#[test]
fn rank_order_is_a_stable_sort_best_first() {
    assert_eq!(rank_order(&vec![3, 9, 3, 1, 9]), vec![1, 4, 0, 2, 3]);
    assert_eq!(rank_order(&vec![]), Vec::<usize>::new());
    assert_eq!(rank_order(&vec![7]), vec![0]);
}
