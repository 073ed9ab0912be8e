use vstd::prelude::*;
use std::rc::Rc;
use std::collections::HashMap;
use crate::dict::{Encoding, FREQ_THRESHOLD, prefix_id_set, prefix_perfect_spec};

verus! {

/// A model that turns the typed tokens into the most likely sentence, one token at a
/// time. A model can be copied to keep a checkpoint of its state.
pub trait SentenceModel: Sized {
    /// The statistics the model reads.
    type Dict;

    /// The model's own consistency.
    spec fn wf(&self) -> bool;

    /// Every token the model has taken in since it was made, in order.
    spec fn fed(&self) -> Seq<u8>;

    /// The word ids of the text before the cursor, as last given.
    spec fn history(&self) -> Seq<u16>;

    /// The sentence (word ids, first word first) that the model reads in the tokens so
    /// far, if any.
    spec fn reading(&self) -> Option<Seq<u16>>;

    /// The two models are in the same state (an equivalence).
    spec fn same_state(&self, other: Self) -> bool;

    /// The model has taken in no token since it was made, and holds the history it was
    /// last given.
    spec fn is_fresh(&self) -> bool;

    /// `next` is the model after taking in token `c`.
    spec fn stepped(&self, next: Self, enc: Encoding, d: Self::Dict, c: u8) -> bool;

    /// The statistics `d` make each step depend only on the model's state and the token.
    spec fn determined(d: Self::Dict) -> bool;

    /// A model is in the same state as itself.
    proof fn lemma_same_reflexive(a: Self)
        ensures
            a.same_state(a),
    ;

    /// The same state is symmetric and transitive.
    proof fn lemma_same_equivalence(a: Self, b: Self, c: Self)
        ensures
            a.same_state(b) ==> b.same_state(a),
            a.same_state(b) && b.same_state(c) ==> a.same_state(c),
    ;

    /// Fresh models given the same history are in the same state.
    proof fn lemma_fresh_same(a: Self, b: Self)
        requires
            a.is_fresh(),
            b.is_fresh(),
            a.history() == b.history(),
        ensures
            a.same_state(b),
    ;

    /// A step depends only on the state it starts from.
    proof fn lemma_stepped_from_same(a: Self, a2: Self, b: Self, enc: Encoding, d: Self::Dict, c: u8)
        requires
            a.same_state(a2),
            a2.stepped(b, enc, d, c),
        ensures
            a.stepped(b, enc, d, c),
    ;

    /// With statistics that make steps depend only on the state and the token, models in
    /// the same state are in the same state after the same token.
    proof fn lemma_step_determined(a1: Self, a2: Self, b1: Self, b2: Self, enc: Encoding, d: Self::Dict, c: u8)
        requires
            Self::determined(d),
            a1.same_state(a2),
            a1.stepped(b1, enc, d, c),
            a2.stepped(b2, enc, d, c),
        ensures
            b1.same_state(b2),
    ;

    /// A model with nothing typed and no history.
    fn new(enc: &Encoding, dict: &Self::Dict) -> (m: Self)
        ensures
            m.wf(),
            m.fed() == Seq::<u8>::empty(),
            m.history() == Seq::<u16>::empty(),
            m.is_fresh(),
    ;

    /// Take in one more typed token.
    fn append(&mut self, enc: &Encoding, d: &Self::Dict, c: u8)
        requires
            old(self).wf(),
            enc.max_len > 0,
            c < 255,
            old(self).fed().len() < u16::MAX,
        ensures
            final(self).wf(),
            final(self).fed() == old(self).fed().push(c),
            final(self).history() == old(self).history(),
            old(self).stepped(*final(self), *enc, *d, c),
    ;

    /// Take in each of `tokens`, in order.
    fn append_all(&mut self, enc: &Encoding, d: &Self::Dict, tokens: &[u8])
        requires
            old(self).wf(),
            tokens@.len() > 0 ==> enc.max_len > 0,
            forall|k: int| 0 <= k < tokens@.len() ==> #[trigger] tokens@[k] < 255,
            old(self).fed().len() + tokens@.len() <= u16::MAX,
        ensures
            final(self).wf(),
            final(self).fed() == old(self).fed() + tokens@,
            final(self).history() == old(self).history(),
            tokens@.len() == 0 ==> *final(self) == *old(self),
            exists|run: Seq<Self>|
                {
                    &&& #[trigger] run.len() == tokens@.len() + 1
                    &&& run[0] == *old(self)
                    &&& run.last() == *final(self)
                    &&& forall|j: int|
                        0 <= j < tokens@.len() ==> (#[trigger] run[j]).stepped(run[j + 1], *enc, *d, tokens@[j])
                },
    {
        let ghost mut run: Seq<Self> = seq![*self];
        let mut i: usize = 0;
        while i < tokens.len()
            invariant
                i <= tokens@.len(),
                self.wf(),
                tokens@.len() > 0 ==> enc.max_len > 0,
                forall|k: int| 0 <= k < tokens@.len() ==> #[trigger] tokens@[k] < 255,
                old(self).fed().len() + tokens@.len() <= u16::MAX,
                self.fed() == old(self).fed() + tokens@.take(i as int),
                self.history() == old(self).history(),
                i == 0 ==> *self == *old(self),
                run.len() == i + 1,
                run[0] == *old(self),
                run.last() == *self,
                forall|j: int|
                    0 <= j < i ==> (#[trigger] run[j]).stepped(run[j + 1], *enc, *d, tokens@.take(i as int)[j]),
            decreases tokens@.len() - i,
        {
            let c = tokens[i];
            assert(tokens@[i as int] < 255);
            let ghost before = *self;
            self.append(enc, d, c);
            proof {
                let r0 = run;
                run = run.push(*self);
                assert forall|j: int| 0 <= j < i + 1 implies (#[trigger] run[j]).stepped(run[j + 1], *enc, *d, tokens@.take(i + 1)[j]) by {
                    if j < i {
                        assert(run[j] == r0[j] && run[j + 1] == r0[j + 1]);
                        assert(tokens@.take(i + 1)[j] == tokens@.take(i as int)[j]);
                    } else {
                        assert(run[j] == before);
                    }
                }
            }
            assert(old(self).fed() + tokens@.take(i + 1) =~= (old(self).fed() + tokens@.take(i as int)).push(c));
            i = i + 1;
        }
        assert(tokens@.take(tokens@.len() as int) =~= tokens@);
        assert(run.len() == tokens@.len() + 1);
    }

    /// Take the word ids of the text before the cursor.
    fn set_history(&mut self, hist: &[u16])
        requires
            old(self).wf(),
        ensures
            final(self).wf(),
            final(self).history() == hist@,
            final(self).fed() == old(self).fed(),
            old(self).is_fresh() ==> final(self).is_fresh(),
    ;

    /// The word ids of the most likely sentence spelled by the tokens so far.
    fn get_sentence(&self, enc: &Encoding, d: &Self::Dict) -> (r: Option<Vec<u16>>)
        requires
            self.wf(),
        ensures
            r is None <==> self.reading() is None,
            r matches Some(ids) ==> self.reading() == Some(ids@),
    ;

    /// A copy of the model, to be kept as a checkpoint.
    fn checkpoint(&self) -> (r: Self)
        requires
            self.wf(),
        ensures
            r.wf(),
            r.fed() == self.fed(),
            r.history() == self.history(),
            r.reading() == self.reading(),
            r.same_state(*self),
    ;
}

/// `run` is the models that `first` passes through while it takes in `tokens` one by one,
/// ending with `last`.
pub open spec fn stepped_through<SM: SentenceModel>(
    run: Seq<SM>,
    first: SM,
    last: SM,
    enc: Encoding,
    d: SM::Dict,
    tokens: Seq<u8>,
) -> bool {
    &&& run.len() == tokens.len() + 1
    &&& run[0] == first
    &&& run.last() == last
    &&& forall|j: int| 0 <= j < tokens.len() ==> (#[trigger] run[j]).stepped(run[j + 1], enc, d, tokens[j])
}

/// The statistics that score the decoder's search. The scores themselves are the
/// statistics' own business; the decoder keeps, for each candidate state, the score and a
/// rank by which states are compared (a higher rank is better).
pub trait Scorer: Sized {
    /// The score of a state, kept with it.
    type Score: Copy;

    /// The total score of the state that candidate `c` would make, and its rank, where
    /// `parent` is the score of the state that `c` extends (none for a first word).
    fn score(&self, parent: Option<Self::Score>, c: &Candidate) -> (Self::Score, u64);
}

/// At most this many states are kept in each generation of the decoder.
pub const KEEP_N_BEST: usize = 256;

/// Append `new` to a bounded window of `len` items: when the window is full the
/// oldest item is dropped, otherwise the window grows by one.
pub fn rotate_insert<T>(vec: &mut Vec<T>, len: usize, new: T)
    requires
        old(vec).len() != len || len > 0,
    ensures
        final(vec)@ == rotate_insert_spec(old(vec)@, len as int, new),
{
    if vec.len() == len {
        vec.remove(0);
        vec.push(new);
    } else {
        vec.push(new);
    }
}

/// `rotate_insert` on sequences.
pub open spec fn rotate_insert_spec<T>(s: Seq<T>, len: int, new: T) -> Seq<T> {
    if s.len() == len {
        s.drop_first().push(new)
    } else {
        s.push(new)
    }
}

/// The last four word ids of `hist`, oldest first, padded at the front with 0.
pub open spec fn history_window_spec(hist: Seq<u16>) -> Seq<u16> {
    Seq::new(4, |k: int| if k >= 4 - hist.len() { hist[hist.len() - 4 + k] } else { 0u16 })
}

/// The context of four word ids that a sentence model keeps from the text before the cursor.
pub fn history_window(hist: &[u16]) -> (r: [u16; 4])
    ensures
        r@ == history_window_spec(hist@),
{
    let n = hist.len();
    let mut buf: [u16; 4] = [0; 4];
    let mut i: usize = 1;
    while i <= 4 && i <= n
        invariant
            1 <= i <= 5,
            n == hist@.len(),
            buf@.len() == 4,
            forall|k: int|
                0 <= k < 4 ==> #[trigger] buf@[k] == if k >= 4 - n && k >= 5 - i {
                    hist@[n - 4 + k]
                } else {
                    0u16
                },
        decreases 5 - i,
    {
        buf[4 - i] = hist[n - i];
        i = i + 1;
    }
    assert(buf@ =~= history_window_spec(hist@));
    buf
}

/// The context after word `x`: the oldest id leaves, `x` comes in last.
pub open spec fn shift_key_spec(key: Seq<u16>, x: u16) -> Seq<u16> {
    seq![key[1], key[2], key[3], x]
}

/// The context after word `x` follows the context `key`.
pub fn shift_key(key: &[u16; 4], x: u16) -> (r: [u16; 4])
    ensures
        r@ == shift_key_spec(key@, x),
{
    let r = [key[1], key[2], key[3], x];
    assert(r@ =~= shift_key_spec(key@, x));
    r
}

/// A node of the decoder's search: the word `id` spelled by the last `len` tokens,
/// reached after `total_len` tokens with log-probability `total_p`, following `parent`
/// (none for the first word of a sentence).
pub struct State<P> {
    pub total_len: u16,
    pub total_p: P,
    pub len: u16,
    pub id: u16,
    pub parent: Option<Rc<State<P>>>,
}

/// The word ids along the path from the first word to `s`.
pub open spec fn trace_spec<P>(s: State<P>) -> Seq<u16>
    decreases s,
{
    match s.parent {
        Some(p) => trace_spec(*p).push(s.id),
        None => seq![s.id],
    }
}

/// The sentence that ends in `s`: its word ids, first word first.
pub fn trace_sequence<P>(s: &State<P>) -> (r: Vec<u16>)
    ensures
        r@ == trace_spec(*s),
    decreases s,
{
    match &s.parent {
        Some(p) => {
            let mut r = trace_sequence(&**p);
            r.push(s.id);
            r
        },
        None => {
            let mut r = Vec::new();
            r.push(s.id);
            r
        },
    }
}


/// Makes another pointer to the same shared node (`Rc::clone`); the pointee is the same
/// value.
#[verifier::external_body]
fn share<T>(r: &Rc<T>) -> (c: Rc<T>)
    ensures
        c == *r,
{
    Rc::clone(r)
}

/// Ids rare enough to be left to exact dictionary matches are not modelled.
pub open spec fn frequent() -> spec_fn(u16) -> bool {
    |x: u16| x as int <= FREQ_THRESHOLD as int
}

/// The modelled words whose spelling starts with `w`, in increasing id order.
pub open spec fn appendable_spec(m: Map<Seq<u8>, Seq<u16>>, max_len: int, w: Seq<u8>) -> Seq<u16> {
    prefix_perfect_spec(m, max_len, w).filter(frequent())
}

/// Keep the ids that the sentence model covers.
fn keep_frequent(xs: Vec<u16>) -> (r: Vec<u16>)
    ensures
        r@ == xs@.filter(frequent()),
        forall|k: int| 0 <= k < r@.len() ==> #[trigger] r@[k] as int <= FREQ_THRESHOLD as int && xs@.contains(r@[k]),
{
    let mut r: Vec<u16> = Vec::new();
    let mut i: usize = 0;
    while i < xs.len()
        invariant
            i <= xs@.len(),
            r@ == xs@.take(i as int).filter(frequent()),
            forall|k: int| 0 <= k < r@.len() ==> #[trigger] r@[k] as int <= FREQ_THRESHOLD as int && xs@.contains(r@[k]),
        decreases xs@.len() - i,
    {
        proof {
            assert(xs@.take(i + 1).drop_last() =~= xs@.take(i as int));
            reveal_with_fuel(Seq::<_>::filter, 1);
        }
        if xs[i] as usize <= FREQ_THRESHOLD {
            assert(xs@.contains(xs@[i as int]));
            r.push(xs[i]);
        }
        i = i + 1;
    }
    assert(xs@.take(xs@.len() as int) =~= xs@);
    r
}

/// The words that may follow a state spelled by the window `w` of the last tokens.
fn appendable(enc: &Encoding, w: &[u8]) -> (r: Vec<u16>)
    requires
        0 < w@.len() <= enc.max_len ==> w@.last() < 255,
    ensures
        r@ == appendable_spec(enc.map@, enc.max_len as int, w@),
        forall|k: int|
            0 <= k < r@.len() ==> #[trigger] r@[k] as int <= FREQ_THRESHOLD as int && prefix_id_set(
                enc.map@,
                w@,
            ).contains(r@[k]),
{
    let xs = enc.prefix_perfect(w);
    let r = keep_frequent(xs);
    assert forall|k: int| 0 <= k < r@.len() implies prefix_id_set(enc.map@, w@).contains(#[trigger] r@[k]) by {
        assert(xs@.contains(r@[k]));
        assert(xs@.to_set().contains(r@[k]));
    }
    r
}

/// The candidate `c` is a modelled word spelled, as a prefix, by the tokens it spans:
/// the tokens after the generation it extends (which exists), or all the tokens for the
/// first word of a sentence.
pub open spec fn spelled_by_span<P>(
    c: Candidate,
    states: Seq<Seq<([u16; 4], Rc<State<P>>)>>,
    tokens: Seq<u8>,
    m: Map<Seq<u8>, Seq<u16>>,
) -> bool {
    &&& c.id as int <= FREQ_THRESHOLD as int
    &&& match c.parent {
        Some((g, j)) => {
            &&& g < states.len()
            &&& j < states[g as int].len()
            &&& prefix_id_set(m, tokens.subrange(tokens.len() - (states.len() - g), tokens.len() as int)).contains(c.id)
        },
        None => prefix_id_set(m, tokens).contains(c.id),
    }
}

/// One way to extend the decoder's search by a word: the word `id` spelled by the last
/// `len` tokens, scored in `context` (the four ids before it), leading to the context
/// `key`; it extends the state `parent` (generation, index), or starts a sentence.
pub struct Candidate {
    pub key: [u16; 4],
    pub context: [u16; 4],
    pub parent: Option<(usize, usize)>,
    pub id: u16,
    pub len: u16,
}

/// What a candidate is made of: context, parent, word id and length.
pub type Plan = (Seq<u16>, Option<(int, int)>, u16, u16);

/// `c` is the candidate that `p` describes.
pub open spec fn cand_matches(c: Candidate, p: Plan) -> bool {
    &&& c.context@ == p.0
    &&& c.key@ == shift_key_spec(p.0, p.2)
    &&& match (c.parent, p.1) {
        (Some((g, j)), Some((pg, pj))) => g == pg && j == pj,
        (None, None) => true,
        _ => false,
    }
    &&& c.id == p.2
    &&& c.len == p.3
}

/// The candidates `r` are those that `plan` describes, in the same order.
pub open spec fn matches_plan(r: Seq<Candidate>, plan: Seq<Plan>) -> bool {
    &&& r.len() == plan.len()
    &&& forall|k: int| 0 <= k < r.len() ==> cand_matches(#[trigger] r[k], plan[k])
}

/// Extending the state at (`g`, `j`), whose context is `ctx`, by each word of `xs`.
pub open spec fn state_plan(ctx: Seq<u16>, g: int, j: int, xs: Seq<u16>, len: u16) -> Seq<Plan> {
    xs.map_values(|x: u16| (ctx, Some((g, j)), x, len))
}

/// Extending the first `n` states of generation `g` (contexts `keys`).
pub open spec fn gen_plan(keys: Seq<Seq<u16>>, g: int, xs: Seq<u16>, len: u16, n: int) -> Seq<Plan>
    decreases n,
{
    if n <= 0 {
        Seq::empty()
    } else {
        gen_plan(keys, g, xs, len, n - 1) + state_plan(keys[n - 1], g, n - 1, xs, len)
    }
}

/// Extending the states of the `i` most recent generations, most recent first; a state
/// of the generation `i` back from the end spans the last `i` tokens.
pub open spec fn gens_plan(
    keys: Seq<Seq<Seq<u16>>>,
    tokens: Seq<u8>,
    m: Map<Seq<u8>, Seq<u16>>,
    max_len: int,
    i: int,
) -> Seq<Plan>
    decreases i,
{
    if i <= 0 {
        Seq::empty()
    } else {
        let g = keys.len() - i;
        let xs = appendable_spec(m, max_len, tokens.subrange(tokens.len() - i, tokens.len() as int));
        gens_plan(keys, tokens, m, max_len, i - 1) + gen_plan(keys[g], g, xs, i as u16, keys[g].len() as int)
    }
}

/// Starting a sentence with a word spelled by a prefix of all the tokens typed, possible
/// while no more tokens were typed than the longest spelling.
pub open spec fn root_plan(hist: Seq<u16>, len: u16, tokens: Seq<u8>, m: Map<Seq<u8>, Seq<u16>>, max_len: int) -> Seq<Plan> {
    if len <= max_len {
        appendable_spec(m, max_len, tokens).map_values(|x: u16| (hist, None::<(int, int)>, x, len))
    } else {
        Seq::empty()
    }
}

/// The incremental sentence decoder: a beam search over word sequences that spell the
/// typed tokens. It keeps the last tokens, and one generation of states per position
/// among the last tokens (oldest generation first); the statistics `D` score the states.
pub struct HMM<D: Scorer> {
    tokens: Vec<u8>,
    states: Vec<Vec<([u16; 4], Rc<State<(D::Score, u64)>>)>>,
    hist: [u16; 4],
    len: u16,
    /// Every token taken in, in order.
    fed: Ghost<Seq<u8>>,
    /// The word ids last given as the text before the cursor.
    given_hist: Ghost<Seq<u16>>,
}

impl<D: Scorer> HMM<D> {
    /// The last tokens typed, oldest first.
    pub closed spec fn tokens_spec(&self) -> Seq<u8> {
        self.tokens@
    }

    /// The generations of states, oldest first.
    pub closed spec fn states_spec(&self) -> Seq<Seq<([u16; 4], Rc<State<(D::Score, u64)>>)>> {
        self.states@.map_values(|g: Vec<([u16; 4], Rc<State<(D::Score, u64)>>)>| g@)
    }

    /// The four word ids before the text being typed.
    pub closed spec fn hist_spec(&self) -> Seq<u16> {
        self.hist@
    }

    /// How many tokens were typed.
    pub closed spec fn len_spec(&self) -> u16 {
        self.len
    }

    /// Every token taken in, in order.
    pub closed spec fn fed_spec(&self) -> Seq<u8> {
        self.fed@
    }

    /// The word ids last given as the text before the cursor.
    pub closed spec fn history_spec(&self) -> Seq<u16> {
        self.given_hist@
    }
}

/// `new` is what restarting after a separator makes of the generations `old`: nothing
/// when there were none, else the newest generation alone, each state one token longer.
pub open spec fn restarted<P>(old: Seq<Seq<([u16; 4], Rc<State<P>>)>>, new: Seq<Seq<([u16; 4], Rc<State<P>>)>>) -> bool {
    &&& old.len() == 0 ==> new.len() == 0
    &&& old.len() > 0 ==> {
        let last = old.last();
        &&& new.len() == 1
        &&& new[0].len() == last.len()
        &&& forall|j: int|
            0 <= j < last.len() ==> {
                let (k, s) = #[trigger] new[0][j];
                &&& k == last[j].0
                &&& s.total_len == last[j].1.total_len + 1
                &&& s.total_p == last[j].1.total_p
                &&& s.len == last[j].1.len
                &&& s.id == last[j].1.id
                &&& s.parent == last[j].1.parent
            }
    }
}

/// No state of the newest generation has counted the most tokens a `u16` holds.
pub open spec fn can_restart<P>(states: Seq<Seq<([u16; 4], Rc<State<P>>)>>) -> bool {
    states.len() > 0 ==> forall|j: int|
        0 <= j < states.last().len() ==> (*#[trigger] states.last()[j].1).total_len < u16::MAX
}

/// The contexts of the states of each generation.
pub open spec fn keys_of<P>(states: Seq<Seq<([u16; 4], Rc<State<P>>)>>) -> Seq<Seq<Seq<u16>>> {
    states.map_values(|g: Seq<([u16; 4], Rc<State<P>>)>| g.map_values(|e: ([u16; 4], Rc<State<P>>)| e.0@))
}

impl<D: Scorer> HMM<D> {
    pub fn tokens(&self) -> (r: &Vec<u8>)
        ensures
            r@ == self.tokens_spec(),
    {
        &self.tokens
    }

    pub fn states(&self) -> (r: &Vec<Vec<([u16; 4], Rc<State<(D::Score, u64)>>)>>)
        ensures
            r@.map_values(|g: Vec<([u16; 4], Rc<State<(D::Score, u64)>>)>| g@) == self.states_spec(),
    {
        &self.states
    }

    pub fn hist(&self) -> (r: [u16; 4])
        ensures
            r@ == self.hist_spec(),
    {
        self.hist
    }

    pub fn len(&self) -> (r: u16)
        ensures
            r == self.len_spec(),
    {
        self.len
    }

    /// Take in the token `c`: one more token typed, kept among the last `enc.max_len`.
    fn push_token(&mut self, enc: &Encoding, c: u8)
        requires
            old(self).len_spec() < u16::MAX,
            old(self).tokens_spec().len() != enc.max_len || enc.max_len > 0,
        ensures
            final(self).len_spec() == old(self).len_spec() + 1,
            final(self).tokens_spec() == rotate_insert_spec(old(self).tokens_spec(), enc.max_len as int, c),
            final(self).states_spec() == old(self).states_spec(),
            final(self).hist_spec() == old(self).hist_spec(),
            final(self).fed@ == old(self).fed@,
            final(self).given_hist@ == old(self).given_hist@,
    {
        self.len = self.len + 1;
        rotate_insert(&mut self.tokens, enc.max_len, c);
    }

    /// After a separator token no word spans back across it: only the newest generation
    /// stays, each of its states counting one more token.
    fn restart(&mut self)
        requires
            can_restart(old(self).states_spec()),
        ensures
            restarted(old(self).states_spec(), final(self).states_spec()),
            final(self).tokens_spec() == old(self).tokens_spec(),
            final(self).hist_spec() == old(self).hist_spec(),
            final(self).len_spec() == old(self).len_spec(),
            final(self).fed@ == old(self).fed@,
            final(self).given_hist@ == old(self).given_hist@,
    {
        let n = self.states.len();
        if n == 0 {
            return;
        }
        let ghost last = self.states_spec().last();
        assert(self.states@[n - 1]@ == last);
        let mut gen: Vec<([u16; 4], Rc<State<(D::Score, u64)>>)> = Vec::new();
        let mut j: usize = 0;
        while j < self.states[n - 1].len()
            invariant
                n == self.states@.len(),
                n > 0,
                last == self.states@[n - 1]@,
                j <= last.len(),
                forall|q: int| 0 <= q < last.len() ==> (*#[trigger] last[q].1).total_len < u16::MAX,
                gen@.len() == j,
                forall|q: int|
                    0 <= q < j ==> {
                        let (k, s) = #[trigger] gen@[q];
                        &&& k == last[q].0
                        &&& s.total_len == last[q].1.total_len + 1
                        &&& s.total_p == last[q].1.total_p
                        &&& s.len == last[q].1.len
                        &&& s.id == last[q].1.id
                        &&& s.parent == last[q].1.parent
                    },
            decreases last.len() - j,
        {
            let (k, s) = &self.states[n - 1][j];
            assert(last[j as int].1.total_len < u16::MAX);
            let parent = match &s.parent {
                Some(p) => Some(share(p)),
                None => None,
            };
            let ns = State { total_len: s.total_len + 1, total_p: s.total_p, len: s.len, id: s.id, parent };
            gen.push((*k, Rc::new(ns)));
            j = j + 1;
        }
        let mut states: Vec<Vec<([u16; 4], Rc<State<(D::Score, u64)>>)>> = Vec::new();
        states.push(gen);
        self.states = states;
    }

    /// Take in the token `c`; a separator (`'\''`) restarts the search at once, any other
    /// token leaves it to the caller to score `candidates` and `push_generation` the result.
    /// Returns whether a new generation is expected.
    fn begin_append(&mut self, enc: &Encoding, c: u8) -> (gen_needed: bool)
        requires
            old(self).len_spec() < u16::MAX,
            old(self).tokens_spec().len() != enc.max_len || enc.max_len > 0,
            c == 39 ==> can_restart(old(self).states_spec()),
        ensures
            gen_needed == (c != 39),
            final(self).len_spec() == old(self).len_spec() + 1,
            final(self).tokens_spec() == rotate_insert_spec(old(self).tokens_spec(), enc.max_len as int, c),
            c == 39 ==> restarted(old(self).states_spec(), final(self).states_spec()),
            c != 39 ==> final(self).states_spec() == old(self).states_spec(),
            final(self).hist_spec() == old(self).hist_spec(),
            final(self).fed@ == old(self).fed@,
            final(self).given_hist@ == old(self).given_hist@,
    {
        self.push_token(enc, c);
        if c == 39u8 {
            self.restart();
            false
        } else {
            true
        }
    }

    /// Add a generation of states; only the last `enc.max_len` generations are kept.
    fn push_generation(&mut self, enc: &Encoding, gen: Vec<([u16; 4], Rc<State<(D::Score, u64)>>)>)
        requires
            old(self).states_spec().len() != enc.max_len || enc.max_len > 0,
        ensures
            final(self).states_spec() == rotate_insert_spec(old(self).states_spec(), enc.max_len as int, gen@),
            final(self).tokens_spec() == old(self).tokens_spec(),
            final(self).hist_spec() == old(self).hist_spec(),
            final(self).len_spec() == old(self).len_spec(),
            final(self).fed@ == old(self).fed@,
            final(self).given_hist@ == old(self).given_hist@,
    {
        let ghost old_states = self.states@;
        let ghost gv = gen@;
        rotate_insert(&mut self.states, enc.max_len, gen);
        proof {
            let f = |g: Vec<([u16; 4], Rc<State<(D::Score, u64)>>)>| g@;
            if old_states.len() == enc.max_len {
                assert(self.states@.map_values(f) =~= old_states.map_values(f).drop_first().push(gv));
            } else {
                assert(self.states@.map_values(f) =~= old_states.map_values(f).push(gv));
            }
        }
    }

    /// Every way to extend the search by one word after the last token: each state of the
    /// generation `i` back from the newest (the newest is 1 back) by each modelled word
    /// spelled, as a prefix, by the last `i` tokens, newest generation first; then, while
    /// no more tokens were typed than the longest spelling, each modelled word spelled by
    /// a prefix of all the tokens, as the first word of a sentence.
    pub fn candidates(&self, enc: &Encoding) -> (r: Vec<Candidate>)
        requires
            self.states_spec().len() <= self.tokens_spec().len(),
            self.tokens_spec().len() > 0 && ((self.states_spec().len() > 0 && enc.max_len > 0)
                || (self.len_spec() <= enc.max_len && self.tokens_spec().len() <= enc.max_len))
                ==> self.tokens_spec().last() < 255,
        ensures
            matches_plan(
                r@,
                gens_plan(keys_of(self.states_spec()), self.tokens_spec(), enc.map@, enc.max_len as int, self.states_spec().len() as int)
                    + root_plan(self.hist_spec(), self.len_spec(), self.tokens_spec(), enc.map@, enc.max_len as int),
            ),
            forall|q: int|
                0 <= q < r@.len() ==> spelled_by_span(#[trigger] r@[q], self.states_spec(), self.tokens_spec(), enc.map@),
    {
        let ghost keys = keys_of(self.states_spec());
        let ghost toks = self.tokens@;
        let ghost m = enc.map@;
        let ghost ml = enc.max_len as int;
        let ns = self.states.len();
        let nt = self.tokens.len();
        let mut r: Vec<Candidate> = Vec::new();
        let mut i: usize = 0;
        while i < ns
            invariant
                ns == self.states@.len(),
                nt == toks.len(),
                toks == self.tokens@,
                keys == keys_of(self.states_spec()),
                m == enc.map@,
                ml == enc.max_len as int,
                ns <= nt,
                nt > 0 && ns > 0 && enc.max_len > 0 ==> toks.last() < 255,
                i <= ns,
                matches_plan(r@, gens_plan(keys, toks, m, ml, i as int)),
                forall|q: int| 0 <= q < r@.len() ==> spelled_by_span(#[trigger] r@[q], self.states_spec(), toks, m),
            decreases ns - i,
        {
            let g = ns - 1 - i;
            let len = i + 1;
            let w = &self.tokens.as_slice()[nt - len..nt];
            assert(w@ == toks.subrange(nt - len, nt as int));
            proof {
                if 0 < w@.len() {
                    assert(w@.last() == toks.last());
                }
            }
            let xs = appendable(enc, w);
            let gen = &self.states[g];
            let ghost gkeys = keys[g as int];
            assert(gkeys.len() == gen@.len());
            let ghost base = gens_plan(keys, toks, m, ml, i as int);
            let mut j: usize = 0;
            while j < gen.len()
                invariant
                    gen@.len() == gkeys.len(),
                    forall|q: int| 0 <= q < gen@.len() ==> #[trigger] gkeys[q] == gen@[q].0@,
                    j <= gen@.len(),
                    matches_plan(r@, base + gen_plan(gkeys, g as int, xs@, len as u16, j as int)),
                    g < ns,
                    ns == self.states_spec().len(),
                    nt == toks.len(),
                    toks == self.tokens_spec(),
                    gen@.len() == self.states_spec()[g as int].len(),
                    len == ns - g,
                    forall|q: int| 0 <= q < xs@.len() ==> #[trigger] xs@[q] as int <= FREQ_THRESHOLD as int && prefix_id_set(m, toks.subrange(nt - len, nt as int)).contains(xs@[q]),
                    forall|q: int| 0 <= q < r@.len() ==> spelled_by_span(#[trigger] r@[q], self.states_spec(), toks, m),
                decreases gen@.len() - j,
            {
                let key = gen[j].0;
                assert(key@ == gkeys[j as int]);
                let ghost before = base + gen_plan(gkeys, g as int, xs@, len as u16, j as int);
                let ghost sp = state_plan(gkeys[j as int], g as int, j as int, xs@, len as u16);
                let mut k: usize = 0;
                while k < xs.len()
                    invariant
                        k <= xs@.len(),
                        sp.len() == xs@.len(),
                        key@ == gkeys[j as int],
                        sp == state_plan(gkeys[j as int], g as int, j as int, xs@, len as u16),
                        matches_plan(r@, before + sp.take(k as int)),
                        j < gen@.len(),
                        g < ns,
                        ns == self.states_spec().len(),
                        nt == toks.len(),
                        toks == self.tokens_spec(),
                        gen@.len() == self.states_spec()[g as int].len(),
                        len == ns - g,
                        forall|q: int| 0 <= q < xs@.len() ==> #[trigger] xs@[q] as int <= FREQ_THRESHOLD as int && prefix_id_set(m, toks.subrange(nt - len, nt as int)).contains(xs@[q]),
                        forall|q: int| 0 <= q < r@.len() ==> spelled_by_span(#[trigger] r@[q], self.states_spec(), toks, m),
                    decreases xs@.len() - k,
                {
                    let x = xs[k];
                    let c = Candidate { key: shift_key(&key, x), context: key, parent: Some((g, j)), id: x, len: len as u16 };
                    assert(spelled_by_span(c, self.states_spec(), toks, m)) by {
                        assert(xs@[k as int] == x);
                    }
                    let ghost rb = r@;
                    r.push(c);
                    proof {
                        assert(before + sp.take(k + 1) =~= (before + sp.take(k as int)).push(sp[k as int]));
                        assert(cand_matches(c, sp[k as int]));
                        assert forall|q: int| 0 <= q < r@.len() implies cand_matches(#[trigger] r@[q], (before + sp.take(k + 1))[q]) by {
                            if q < rb.len() {
                                assert(r@[q] == rb[q]);
                            }
                        }
                    }
                    k = k + 1;
                }
                assert(sp.take(xs@.len() as int) =~= sp);
                assert(base + gen_plan(gkeys, g as int, xs@, len as u16, j + 1) =~= before + sp);
                j = j + 1;
            }
            proof {
                assert(g == keys.len() - (i + 1));
                assert(gens_plan(keys, toks, m, ml, i + 1) =~= base + gen_plan(gkeys, g as int, xs@, len as u16, gkeys.len() as int));
            }
            i = i + 1;
        }
        let ghost base = gens_plan(keys, toks, m, ml, ns as int);
        if self.len as usize <= enc.max_len {
            let xs = appendable(enc, self.tokens.as_slice());
            let ghost rp = root_plan(self.hist@, self.len, toks, m, ml);
            assert(rp.len() == xs@.len());
            let mut k: usize = 0;
            while k < xs.len()
                invariant
                    k <= xs@.len(),
                    rp.len() == xs@.len(),
                    rp == xs@.map_values(|x: u16| (self.hist@, None::<(int, int)>, x, self.len)),
                    matches_plan(r@, base + rp.take(k as int)),
                    forall|q: int| 0 <= q < xs@.len() ==> #[trigger] xs@[q] as int <= FREQ_THRESHOLD as int && prefix_id_set(m, toks).contains(xs@[q]),
                    forall|q: int| 0 <= q < r@.len() ==> spelled_by_span(#[trigger] r@[q], self.states_spec(), toks, m),
                decreases xs@.len() - k,
            {
                let x = xs[k];
                let c = Candidate { key: shift_key(&self.hist, x), context: self.hist, parent: None, id: x, len: self.len };
                assert(spelled_by_span(c, self.states_spec(), toks, m)) by {
                    assert(xs@[k as int] == x);
                }
                let ghost rb = r@;
                r.push(c);
                proof {
                    assert(base + rp.take(k + 1) =~= (base + rp.take(k as int)).push(rp[k as int]));
                    assert(cand_matches(c, rp[k as int]));
                    assert forall|q: int| 0 <= q < r@.len() implies cand_matches(#[trigger] r@[q], (base + rp.take(k + 1))[q]) by {
                        if q < rb.len() {
                            assert(r@[q] == rb[q]);
                        }
                    }
                }
                k = k + 1;
            }
            assert(rp.take(xs@.len() as int) =~= rp);
        } else {
            assert(base + root_plan(self.hist@, self.len, toks, m, ml) =~= base);
        }
        r
    }
}


/// Candidate `i` goes before candidate `j` in the beam: a higher rank, or the same rank
/// and an earlier candidate.
pub open spec fn outranks(ranks: Seq<u64>, i: int, j: int) -> bool {
    ranks[i] > ranks[j] || (ranks[i] == ranks[j] && i < j)
}

/// Candidate `i` is the best of the candidates with its context key.
pub open spec fn best_of_key(cands: Seq<Candidate>, ranks: Seq<u64>, i: int) -> bool {
    &&& 0 <= i < cands.len()
    &&& forall|j: int|
        0 <= j < cands.len() && j != i && (#[trigger] cands[j]).key@ == cands[i].key@ ==> outranks(ranks, i, j)
}

/// `sel` is the beam that the candidates `cands` with ranks `ranks` make: the best
/// candidate of each context key (so no two share a key), best first, cut to
/// `KEEP_N_BEST`; a best candidate is left out only when the beam is full, and then every
/// kept one goes before it.
pub open spec fn is_beam(cands: Seq<Candidate>, ranks: Seq<u64>, sel: Seq<usize>) -> bool {
    &&& sel.len() <= KEEP_N_BEST
    &&& forall|q: int| 0 <= q < sel.len() ==> best_of_key(cands, ranks, #[trigger] sel[q] as int)
    &&& forall|q: int, q2: int|
        0 <= q < q2 < sel.len() ==> outranks(ranks, #[trigger] sel[q] as int, #[trigger] sel[q2] as int)
    &&& forall|q: int, q2: int|
        0 <= q < q2 < sel.len() ==> cands[#[trigger] sel[q] as int].key@ != cands[#[trigger] sel[q2] as int].key@
    &&& forall|i: int|
        #[trigger] best_of_key(cands, ranks, i) && !sel.contains(i as usize) ==> sel.len() == KEEP_N_BEST && forall|q: int|
            0 <= q < sel.len() ==> outranks(ranks, #[trigger] sel[q] as int, i)
    &&& sel.len() < KEEP_N_BEST ==> forall|j: int|
        0 <= j < cands.len() ==> exists|q: int| 0 <= q < sel.len() && cands[#[trigger] sel[q] as int].key@ == (#[trigger] cands[j]).key@
}

/// A number that stands for a context key, one to one.
pub open spec fn key_code(k: Seq<u16>) -> u64 {
    ((k[0] as u64) << 48u64) | ((k[1] as u64) << 32u64) | ((k[2] as u64) << 16u64) | (k[3] as u64)
}

proof fn lemma_key_code(a: Seq<u16>, b: Seq<u16>)
    requires
        a.len() == 4,
        b.len() == 4,
    ensures
        key_code(a) == key_code(b) <==> a == b,
{
    let (a0, a1, a2, a3) = (a[0], a[1], a[2], a[3]);
    let (b0, b1, b2, b3) = (b[0], b[1], b[2], b[3]);
    assert((((a0 as u64) << 48u64) | ((a1 as u64) << 32u64) | ((a2 as u64) << 16u64) | (a3 as u64)) == (((b0 as u64)
        << 48u64) | ((b1 as u64) << 32u64) | ((b2 as u64) << 16u64) | (b3 as u64)) <==> (a0 == b0 && a1 == b1 && a2 == b2
        && a3 == b3)) by (bit_vector);
    if a0 == b0 && a1 == b1 && a2 == b2 && a3 == b3 {
        assert(a =~= b);
    }
}

fn key_code_of(k: &[u16; 4]) -> (r: u64)
    ensures
        r == key_code(k@),
{
    ((k[0] as u64) << 48u64) | ((k[1] as u64) << 32u64) | ((k[2] as u64) << 16u64) | (k[3] as u64)
}

/// The candidates are in beam order, equal ones aside.
pub open spec fn ranked_order(ranks: Seq<u64>, s: Seq<usize>) -> bool {
    forall|p: int, q: int|
        0 <= p < q < s.len() ==> #[trigger] s[p] == #[trigger] s[q] || outranks(ranks, s[p] as int, s[q] as int)
}

/// The two ranked lists `a` and `b` merged into one.
fn merge_ranked(a: &[usize], b: &[usize], ranks: &Vec<u64>) -> (r: Vec<usize>)
    requires
        ranked_order(ranks@, a@),
        ranked_order(ranks@, b@),
        forall|k: int| 0 <= k < a@.len() ==> #[trigger] a@[k] < ranks@.len(),
        forall|k: int| 0 <= k < b@.len() ==> #[trigger] b@[k] < ranks@.len(),
    ensures
        ranked_order(ranks@, r@),
        r@.to_multiset() == a@.to_multiset().add(b@.to_multiset()),
        forall|k: int| 0 <= k < r@.len() ==> #[trigger] r@[k] < ranks@.len(),
{
    broadcast use vstd::seq_lib::group_to_multiset_ensures;
    broadcast use vstd::multiset::group_multiset_axioms;
    let mut r: Vec<usize> = Vec::new();
    let mut i: usize = 0;
    let mut j: usize = 0;
    assert(a@.take(0) =~= Seq::<usize>::empty());
    assert(b@.take(0) =~= Seq::<usize>::empty());
    assert(r@.to_multiset() =~= a@.take(0).to_multiset().add(b@.take(0).to_multiset()));
    while i < a.len() || j < b.len()
        invariant
            i <= a@.len(),
            j <= b@.len(),
            ranked_order(ranks@, a@),
            ranked_order(ranks@, b@),
            forall|k: int| 0 <= k < a@.len() ==> #[trigger] a@[k] < ranks@.len(),
            forall|k: int| 0 <= k < b@.len() ==> #[trigger] b@[k] < ranks@.len(),
            forall|k: int| 0 <= k < r@.len() ==> #[trigger] r@[k] < ranks@.len(),
            ranked_order(ranks@, r@),
            r@.to_multiset() == a@.take(i as int).to_multiset().add(b@.take(j as int).to_multiset()),
            forall|k: int|
                0 <= k < r@.len() ==> (i < a@.len() ==> #[trigger] r@[k] == a@[i as int] || outranks(
                    ranks@,
                    r@[k] as int,
                    a@[i as int] as int,
                )) && (j < b@.len() ==> r@[k] == b@[j as int] || outranks(ranks@, r@[k] as int, b@[j as int] as int)),
        decreases a@.len() + b@.len() - i - j,
    {
        let ghost r0 = r@;
        let take_a = if j == b.len() {
            true
        } else if i == a.len() {
            false
        } else {
            let x = a[i];
            let y = b[j];
            x == y || ranks[x] > ranks[y] || (ranks[x] == ranks[y] && x < y)
        };
        if take_a {
            let v = a[i];
            r.push(v);
            proof {
                assert(a@.take(i + 1) =~= a@.take(i as int).push(v));
                assert(r@ == r0.push(v));
                vstd::seq_lib::to_multiset_build(r0, v);
                vstd::seq_lib::to_multiset_build(a@.take(i as int), v);
                assert(r@.to_multiset() =~= r0.to_multiset().insert(v));
                assert(a@.take(i + 1).to_multiset() =~= a@.take(i as int).to_multiset().insert(v));
                assert(r@.to_multiset() =~= a@.take(i + 1).to_multiset().add(b@.take(j as int).to_multiset()));
                assert forall|k: int| 0 <= k < r@.len() implies (i + 1 < a@.len() ==> #[trigger] r@[k] == a@[i + 1]
                    || outranks(ranks@, r@[k] as int, a@[i + 1] as int)) && (j < b@.len() ==> r@[k] == b@[j as int]
                    || outranks(ranks@, r@[k] as int, b@[j as int] as int)) by {
                    if k < r0.len() {
                        assert(r@[k] == r0[k]);
                    }
                    if i + 1 < a@.len() {
                        assert(a@[i as int] == a@[i + 1] || outranks(ranks@, a@[i as int] as int, a@[i + 1] as int));
                    }
                }
                assert forall|p: int, q: int| 0 <= p < q < r@.len() implies #[trigger] r@[p] == #[trigger] r@[q]
                    || outranks(ranks@, r@[p] as int, r@[q] as int) by {
                    if q < r0.len() {
                        assert(r@[p] == r0[p] && r@[q] == r0[q]);
                    } else {
                        assert(r@[p] == r0[p]);
                    }
                }
            }
            i = i + 1;
        } else {
            let v = b[j];
            r.push(v);
            proof {
                assert(b@.take(j + 1) =~= b@.take(j as int).push(v));
                assert(r@ == r0.push(v));
                vstd::seq_lib::to_multiset_build(r0, v);
                vstd::seq_lib::to_multiset_build(b@.take(j as int), v);
                assert(r@.to_multiset() =~= r0.to_multiset().insert(v));
                assert(b@.take(j + 1).to_multiset() =~= b@.take(j as int).to_multiset().insert(v));
                assert(r@.to_multiset() =~= a@.take(i as int).to_multiset().add(b@.take(j + 1).to_multiset()));
                assert forall|k: int| 0 <= k < r@.len() implies (i < a@.len() ==> #[trigger] r@[k] == a@[i as int]
                    || outranks(ranks@, r@[k] as int, a@[i as int] as int)) && (j + 1 < b@.len() ==> r@[k] == b@[j + 1]
                    || outranks(ranks@, r@[k] as int, b@[j + 1] as int)) by {
                    if k < r0.len() {
                        assert(r@[k] == r0[k]);
                    }
                    if j + 1 < b@.len() {
                        assert(b@[j as int] == b@[j + 1] || outranks(ranks@, b@[j as int] as int, b@[j + 1] as int));
                    }
                }
                assert forall|p: int, q: int| 0 <= p < q < r@.len() implies #[trigger] r@[p] == #[trigger] r@[q]
                    || outranks(ranks@, r@[p] as int, r@[q] as int) by {
                    if q < r0.len() {
                        assert(r@[p] == r0[p] && r@[q] == r0[q]);
                    } else {
                        assert(r@[p] == r0[p]);
                    }
                }
            }
            j = j + 1;
        }
    }
    assert(a@.take(a@.len() as int) =~= a@);
    assert(b@.take(b@.len() as int) =~= b@);
    r
}

/// The list `x` in beam order (a merge sort).
fn sort_ranked(x: &[usize], ranks: &Vec<u64>) -> (r: Vec<usize>)
    requires
        forall|k: int| 0 <= k < x@.len() ==> #[trigger] x@[k] < ranks@.len(),
    ensures
        ranked_order(ranks@, r@),
        r@.to_multiset() == x@.to_multiset(),
        forall|k: int| 0 <= k < r@.len() ==> #[trigger] r@[k] < ranks@.len(),
    decreases x@.len(),
{
    let n = x.len();
    if n <= 1 {
        let mut r: Vec<usize> = Vec::new();
        if n == 1 {
            r.push(x[0]);
        }
        assert(r@ =~= x@);
        return r;
    }
    let mid = n / 2;
    let a = sort_ranked(&x[0..mid], ranks);
    let b = sort_ranked(&x[mid..n], ranks);
    proof {
        vstd::seq_lib::lemma_multiset_commutative(x@.subrange(0, mid as int), x@.subrange(mid as int, n as int));
        assert(x@ =~= x@.subrange(0, mid as int) + x@.subrange(mid as int, n as int));
    }
    merge_ranked(a.as_slice(), b.as_slice(), ranks)
}

/// The indices `0..ranks.len()` in rank order: higher ranks first, equal ranks in index
/// order (a stable sort from best to worst).
pub fn rank_order(ranks: &Vec<u64>) -> (r: Vec<usize>)
    ensures
        r@.len() == ranks@.len(),
        forall|k: int| 0 <= k < r@.len() ==> #[trigger] r@[k] < ranks@.len(),
        forall|i: usize| i < ranks@.len() ==> #[trigger] r@.contains(i),
        forall|p: int, q: int| 0 <= p < q < r@.len() ==> outranks(ranks@, #[trigger] r@[p] as int, #[trigger] r@[q] as int),
{
    broadcast use vstd::seq_lib::group_to_multiset_ensures;
    let n = ranks.len();
    let mut x: Vec<usize> = Vec::new();
    let mut i: usize = 0;
    while i < n
        invariant
            n == ranks@.len(),
            i <= n,
            x@.len() == i,
            forall|k: int| 0 <= k < i ==> #[trigger] x@[k] == k,
        decreases n - i,
    {
        x.push(i);
        i = i + 1;
    }
    let r = sort_ranked(x.as_slice(), ranks);
    proof {
        assert(x@.no_duplicates());
        x@.lemma_multiset_has_no_duplicates();
        r@.lemma_multiset_has_no_duplicates_conv();
        assert forall|v: usize| r@.contains(v) <==> x@.contains(v) by {
            assert(r@.to_multiset().count(v) == x@.to_multiset().count(v));
        }
        assert forall|i2: usize| i2 < n implies #[trigger] r@.contains(i2) by {
            assert(x@[i2 as int] == i2);
            assert(x@.contains(i2));
        }
        assert forall|p: int, q: int| 0 <= p < q < r@.len() implies outranks(ranks@, #[trigger] r@[p] as int, #[trigger] r@[q] as int) by {
            assert(r@[p] != r@[q]);
        }
        assert(r@.len() == r@.to_multiset().len());
        assert(x@.len() == x@.to_multiset().len());
    }
    r
}

/// The beam of the candidates `cands` with ranks `ranks`: the indices of the candidates
/// that the new generation keeps, best first.
pub fn select_beam(cands: &Vec<Candidate>, ranks: &Vec<u64>) -> (sel: Vec<usize>)
    requires
        cands@.len() == ranks@.len(),
    ensures
        is_beam(cands@, ranks@, sel@),
{
    broadcast use vstd::std_specs::hash::group_hash_axioms;
    broadcast use vstd::seq_lib::group_to_multiset_ensures;
    let n = cands.len();
    let ghost cs = cands@;
    let ghost rs = ranks@;
    // the best candidate so far of each context key
    let mut best: HashMap<u64, usize> = HashMap::new();
    let mut i: usize = 0;
    while i < n
        invariant
            n == cs.len(),
            n == rs.len(),
            cs == cands@,
            rs == ranks@,
            i <= n,
            forall|c: u64|
                #[trigger] best@.contains_key(c) ==> best@[c] < i && key_code(cs[best@[c] as int].key@) == c,
            forall|j: int| 0 <= j < i ==> #[trigger] best@.contains_key(key_code(cs[j].key@)),
            forall|j: int|
                0 <= j < i ==> best@[key_code((#[trigger] cs[j]).key@)] == j || outranks(
                    rs,
                    best@[key_code(cs[j].key@)] as int,
                    j,
                ),
        decreases n - i,
    {
        let c = key_code_of(&cands[i].key);
        let cur = match best.get(&c) {
            Some(b) => Some(*b),
            None => None,
        };
        let ghost m0 = best@;
        match cur {
            None => {
                best.insert(c, i);
                assert forall|j: int| 0 <= j < i + 1 implies best@[key_code((#[trigger] cs[j]).key@)] == j || outranks(
                    rs,
                    best@[key_code(cs[j].key@)] as int,
                    j,
                ) by {
                    if j < i {
                        assert(m0.contains_key(key_code(cs[j].key@)));
                        assert(key_code(cs[j].key@) != c);
                    }
                }
            },
            Some(b) => {
                if ranks[i] > ranks[b] {
                    best.insert(c, i);
                    assert forall|j: int| 0 <= j < i + 1 implies best@[key_code((#[trigger] cs[j]).key@)] == j || outranks(
                        rs,
                        best@[key_code(cs[j].key@)] as int,
                        j,
                    ) by {
                        if j < i && key_code(cs[j].key@) == c {
                            assert(m0[c] == j || outranks(rs, m0[c] as int, j));
                        }
                    }
                } else {
                    assert(outranks(rs, b as int, i as int));
                }
            },
        }
        i = i + 1;
    }
    // the best of a key is the one the map holds for it
    assert forall|j: int| 0 <= j < n implies #[trigger] best_of_key(cs, rs, j) == (best@[key_code(cs[j].key@)] == j) by {
        let b = best@[key_code(cs[j].key@)];
        assert(best@.contains_key(key_code(cs[j].key@)));
        lemma_key_code(cs[b as int].key@, cs[j].key@);
        if b == j {
            assert forall|k: int| 0 <= k < n && k != j && (#[trigger] cs[k]).key@ == cs[j].key@ implies outranks(rs, j, k) by {
                lemma_key_code(cs[k].key@, cs[j].key@);
                assert(best@[key_code(cs[k].key@)] == k || outranks(rs, best@[key_code(cs[k].key@)] as int, k));
            }
        } else {
            assert(outranks(rs, b as int, j));
            if best_of_key(cs, rs, j) {
                assert(outranks(rs, j, b as int));
            }
        }
    }
    // the best candidate of each key, in candidate order
    let mut w: Vec<usize> = Vec::new();
    i = 0;
    while i < n
        invariant
            n == cs.len(),
            n == rs.len(),
            cs == cands@,
            rs == ranks@,
            i <= n,
            forall|j: int| 0 <= j < n ==> #[trigger] best_of_key(cs, rs, j) == (best@[key_code(cs[j].key@)] == j),
            forall|j: int| 0 <= j < n ==> #[trigger] best@.contains_key(key_code(cs[j].key@)),
            forall|c: u64|
                #[trigger] best@.contains_key(c) ==> best@[c] < n && key_code(cs[best@[c] as int].key@) == c,
            forall|q: int| 0 <= q < w@.len() ==> #[trigger] w@[q] < i && best_of_key(cs, rs, w@[q] as int),
            forall|p: int, q: int| 0 <= p < q < w@.len() ==> #[trigger] w@[p] < #[trigger] w@[q],
            forall|j: int| 0 <= j < i && #[trigger] best_of_key(cs, rs, j) ==> w@.contains(j as usize),
        decreases n - i,
    {
        let c = key_code_of(&cands[i].key);
        let is_best = match best.get(&c) {
            Some(b) => *b == i,
            None => false,
        };
        let ghost w0 = w@;
        if is_best {
            w.push(i);
            assert forall|j: int| 0 <= j < i + 1 && #[trigger] best_of_key(cs, rs, j) implies w@.contains(j as usize) by {
                if j < i {
                    let q = choose|q: int| 0 <= q < w0.len() && w0[q] == j as usize;
                    assert(w@[q] == j as usize);
                } else {
                    assert(w@[w0.len() as int] == i);
                }
            }
        }
        i = i + 1;
    }
    let sorted = sort_ranked(w.as_slice(), ranks);
    let mut sel = sorted;
    if sel.len() > KEEP_N_BEST {
        sel.truncate(KEEP_N_BEST);
    }
    proof {
        let s = sorted@;
        assert(w@.no_duplicates()) by {
            assert forall|p: int, q: int| 0 <= p < w@.len() && 0 <= q < w@.len() && p != q implies w@[p] != w@[q] by {
                if p < q {
                    assert(w@[p] < w@[q]);
                } else {
                    assert(w@[q] < w@[p]);
                }
            }
        }
        w@.lemma_multiset_has_no_duplicates();
        s.lemma_multiset_has_no_duplicates_conv();
        assert forall|v: usize| s.contains(v) <==> w@.contains(v) by {
            assert(s.to_multiset().count(v) == w@.to_multiset().count(v));
        }
        let sv = sel@;
        assert(sv =~= s.take(sv.len() as int));
        assert forall|q: int| 0 <= q < sv.len() implies best_of_key(cs, rs, #[trigger] sv[q] as int) by {
            assert(s.contains(s[q]));
            assert(w@.contains(s[q]));
            let k = choose|k: int| 0 <= k < w@.len() && w@[k] == s[q];
            assert(best_of_key(cs, rs, w@[k] as int));
        }
        assert forall|q: int, q2: int| 0 <= q < q2 < sv.len() implies outranks(rs, #[trigger] sv[q] as int, #[trigger] sv[q2] as int) by {
            assert(s[q] != s[q2]);
        }
        assert forall|q: int, q2: int| 0 <= q < q2 < sv.len() implies cs[#[trigger] sv[q] as int].key@ != cs[#[trigger] sv[q2] as int].key@ by {
            assert(s[q] != s[q2]);
            assert(outranks(rs, sv[q] as int, sv[q2] as int));
            assert(best_of_key(cs, rs, sv[q] as int));
            assert(best_of_key(cs, rs, sv[q2] as int));
            if cs[sv[q] as int].key@ == cs[sv[q2] as int].key@ {
                assert(outranks(rs, sv[q2] as int, sv[q] as int));
            }
        }
        assert forall|i2: int| #[trigger] best_of_key(cs, rs, i2) && !sv.contains(i2 as usize) implies sv.len() == KEEP_N_BEST
            && forall|q: int| 0 <= q < sv.len() ==> outranks(rs, #[trigger] sv[q] as int, i2) by {
            assert(w@.contains(i2 as usize));
            assert(s.contains(i2 as usize));
            let p = choose|p: int| 0 <= p < s.len() && s[p] == i2 as usize;
            if p < sv.len() {
                assert(sv[p] == i2 as usize);
            }
            assert forall|q: int| 0 <= q < sv.len() implies outranks(rs, #[trigger] sv[q] as int, i2) by {
                assert(s[q] != s[p]);
            }
        }
        if sv.len() < KEEP_N_BEST {
            assert(sv =~= s);
            assert forall|j: int| 0 <= j < cs.len() implies exists|q: int|
                0 <= q < sv.len() && cs[#[trigger] sv[q] as int].key@ == (#[trigger] cs[j]).key@ by {
                let b = best@[key_code(cs[j].key@)];
                assert(best@.contains_key(key_code(cs[j].key@)));
                lemma_key_code(cs[b as int].key@, cs[j].key@);
                assert(best_of_key(cs, rs, b as int));
                assert(w@.contains(b));
                assert(s.contains(b));
                let q = choose|q: int| 0 <= q < s.len() && s[q] == b;
                assert(sv[q] == b);
            }
        }
    }
    sel
}

/// The rank of an entry of a generation: higher is better.
pub open spec fn rank_of<S>(e: ([u16; 4], Rc<State<(S, u64)>>)) -> u64 {
    (*e.1).total_p.1
}

/// Index `b` holds the best-ranked entry of the generation `g`, the first of equals.
pub open spec fn is_best<S>(g: Seq<([u16; 4], Rc<State<(S, u64)>>)>, b: int) -> bool {
    &&& 0 <= b < g.len()
    &&& forall|j: int| 0 <= j < g.len() ==> rank_of(#[trigger] g[j]) <= rank_of(g[b])
    &&& forall|j: int| 0 <= j < b ==> rank_of(#[trigger] g[j]) < rank_of(g[b])
}

/// The sentence that ends in the best-ranked state of the newest generation, if any.
pub open spec fn reading_of<S>(states: Seq<Seq<([u16; 4], Rc<State<(S, u64)>>)>>) -> Option<Seq<u16>> {
    if states.len() == 0 || states.last().len() == 0 {
        None
    } else {
        Some(trace_spec(*states.last()[choose|b: int| is_best(states.last(), b)].1))
    }
}

proof fn lemma_best_unique<S>(g: Seq<([u16; 4], Rc<State<(S, u64)>>)>, b: int, b2: int)
    requires
        is_best(g, b),
        is_best(g, b2),
    ensures
        b == b2,
{
    if b < b2 {
        assert(rank_of(g[b]) < rank_of(g[b2]));
        assert(rank_of(g[b2]) <= rank_of(g[b]));
    } else if b2 < b {
        assert(rank_of(g[b2]) < rank_of(g[b]));
        assert(rank_of(g[b]) <= rank_of(g[b2]));
    }
}

/// Among the first `n` entries of `g`, `b` is the best-ranked, the first of equals.
pub open spec fn best_among<S>(g: Seq<([u16; 4], Rc<State<(S, u64)>>)>, n: int, b: int) -> bool {
    &&& 0 <= b < n
    &&& forall|j: int| 0 <= j < n ==> rank_of(#[trigger] g[j]) <= rank_of(g[b])
    &&& forall|j: int| 0 <= j < b ==> rank_of(#[trigger] g[j]) < rank_of(g[b])
}

proof fn lemma_best_exists<S>(g: Seq<([u16; 4], Rc<State<(S, u64)>>)>, n: int)
    requires
        1 <= n <= g.len(),
    ensures
        exists|b: int| #[trigger] best_among(g, n, b),
    decreases n,
{
    if n == 1 {
        assert(best_among(g, 1, 0));
    } else {
        lemma_best_exists(g, n - 1);
        let b = choose|b: int| #[trigger] best_among(g, n - 1, b);
        if rank_of(g[n - 1]) > rank_of(g[b]) {
            assert(best_among(g, n, n - 1));
        } else {
            assert(best_among(g, n, b));
        }
    }
}

/// A separator keeps every sentence read so far: each state that the restart keeps
/// follows the same word sequence as the state it came from, with the same rank, so the
/// sentence of the best state is unchanged.
pub proof fn law_restart_keeps_sentences<S>(
    old: Seq<Seq<([u16; 4], Rc<State<(S, u64)>>)>>,
    new: Seq<Seq<([u16; 4], Rc<State<(S, u64)>>)>>,
)
    requires
        restarted(old, new),
    ensures
        old.len() > 0 ==> forall|j: int|
            0 <= j < new[0].len() ==> trace_spec(*(#[trigger] new[0][j]).1) == trace_spec(*old.last()[j].1),
        reading_of(new) == reading_of(old),
{
    if old.len() > 0 {
        let l = old.last();
        let g = new[0];
        assert forall|j: int| 0 <= j < g.len() implies trace_spec(*(#[trigger] g[j]).1) == trace_spec(*l[j].1) by {
            let (k, st) = g[j];
            assert(st.parent == l[j].1.parent && st.id == l[j].1.id);
        }
        assert forall|j: int| 0 <= j < g.len() implies rank_of(#[trigger] g[j]) == rank_of(l[j]) by {
            let (k, st) = g[j];
            assert(st.total_p == l[j].1.total_p);
        }
        assert(new.last() == g);
        if l.len() > 0 {
            lemma_best_exists(l, l.len() as int);
            let bl = choose|b: int| is_best(l, b);
            let b0 = choose|b: int| #[trigger] best_among(l, l.len() as int, b);
            assert(is_best(l, b0));
            assert(is_best(l, bl));
            assert(is_best(g, bl));
            let bg = choose|b: int| is_best(g, b);
            assert(is_best(g, bg));
            lemma_best_unique(g, bl, bg);
        }
    }
}

/// Taking in a separator leaves the decoder's reading as it was.
pub proof fn law_separator_keeps_reading<D: Scorer>(a: HMM<D>, b: HMM<D>, enc: Encoding, d: &D)
    requires
        appended(a, b, enc, d, 39),
    ensures
        reading_of(b.states_spec()) == reading_of(a.states_spec()),
{
    law_restart_keeps_sentences(a.states_spec(), b.states_spec());
}

/// The state that candidate `c` extends, if any, is one of `states`.
pub open spec fn parent_in<P>(c: Candidate, states: Seq<Seq<([u16; 4], Rc<State<P>>)>>) -> bool {
    match c.parent {
        Some((g, j)) => g < states.len() && j < states[g as int].len(),
        None => true,
    }
}

proof fn lemma_window_lengths<A, B>(t: Seq<A>, s: Seq<B>, m: int, c: A, g: B)
    requires
        s.len() <= t.len(),
        m > 0,
    ensures
        s.len() <= rotate_insert_spec(t, m, c).len(),
        rotate_insert_spec(s, m, g).len() <= rotate_insert_spec(t, m, c).len(),
        rotate_insert_spec(t, m, c).len() >= 1,
{
}

/// The entry `e` is the state of candidate `c`: its context, word and length, and the
/// state of `states` that it extends.
pub open spec fn built_from<P>(e: ([u16; 4], Rc<State<P>>), c: Candidate, states: Seq<Seq<([u16; 4], Rc<State<P>>)>>) -> bool {
    let s = *e.1;
    &&& e.0 == c.key
    &&& s.id == c.id
    &&& s.len == c.len
    &&& match c.parent {
        Some((g, j)) => s.parent == Some(states[g as int][j as int].1),
        None => s.parent is None,
    }
}

/// `gen` is the generation of the beam `sel` of the candidates `cands`, scored `scores`:
/// entry `q` is the state of candidate `sel[q]`, reached after `len` tokens with its score.
pub open spec fn generation_of<S>(
    gen: Seq<([u16; 4], Rc<State<(S, u64)>>)>,
    cands: Seq<Candidate>,
    scores: Seq<(S, u64)>,
    sel: Seq<usize>,
    states: Seq<Seq<([u16; 4], Rc<State<(S, u64)>>)>>,
    len: u16,
) -> bool {
    &&& gen.len() == sel.len()
    &&& forall|q: int|
        0 <= q < gen.len() ==> {
            &&& built_from(#[trigger] gen[q], cands[sel[q] as int], states)
            &&& (*gen[q].1).total_len == len
            &&& (*gen[q].1).total_p == scores[sel[q] as int]
        }
}

/// The score of the state that candidate `c` extends, if any.
pub open spec fn parent_score<S>(c: Candidate, states: Seq<Seq<([u16; 4], Rc<State<(S, u64)>>)>>) -> Option<S> {
    match c.parent {
        Some((g, j)) => Some((*states[g as int][j as int].1).total_p.0),
        None => None,
    }
}

/// `scores` are what the statistics `d` returned for the candidates `cands`, each scored
/// with the score of the state it extends among `states`.
pub open spec fn scored_by<D: Scorer>(
    d: &D,
    cands: Seq<Candidate>,
    scores: Seq<(D::Score, u64)>,
    states: Seq<Seq<([u16; 4], Rc<State<(D::Score, u64)>>)>>,
) -> bool {
    &&& scores.len() == cands.len()
    &&& forall|k: int|
        0 <= k < cands.len() ==> call_ensures(D::score, (d, parent_score(cands[k], states), &cands[k]), #[trigger] scores[k])
}

/// The ranks of `scores`.
pub open spec fn ranks_of<S>(scores: Seq<(S, u64)>) -> Seq<u64> {
    scores.map_values(|s: (S, u64)| s.1)
}

/// The candidates after a token, for the generations `states`, the kept tokens, the history
/// context and the count of tokens typed.
pub open spec fn next_plan<P>(
    states: Seq<Seq<([u16; 4], Rc<State<P>>)>>,
    tokens: Seq<u8>,
    hist: Seq<u16>,
    len: u16,
    m: Map<Seq<u8>, Seq<u16>>,
    max_len: int,
) -> Seq<Plan> {
    gens_plan(keys_of(states), tokens, m, max_len, states.len() as int) + root_plan(hist, len, tokens, m, max_len)
}

/// The generations `new` follow `old` after a token: the candidates `cands` that `plan`
/// describes were scored `scores`, their beam `sel` makes the generation `gen`, and `gen`
/// joins the last `max_len` generations.
pub open spec fn extends_by<S>(
    old: Seq<Seq<([u16; 4], Rc<State<(S, u64)>>)>>,
    new: Seq<Seq<([u16; 4], Rc<State<(S, u64)>>)>>,
    plan: Seq<Plan>,
    max_len: int,
    len: u16,
    cands: Seq<Candidate>,
    scores: Seq<(S, u64)>,
    sel: Seq<usize>,
    gen: Seq<([u16; 4], Rc<State<(S, u64)>>)>,
) -> bool {
    &&& matches_plan(cands, plan)
    &&& scores.len() == cands.len()
    &&& is_beam(cands, ranks_of(scores), sel)
    &&& generation_of(gen, cands, scores, sel, old, len)
    &&& new == rotate_insert_spec(old, max_len, gen)
}

/// Every state of `states` was reached after at most `len` tokens.
pub open spec fn states_within<P>(states: Seq<Seq<([u16; 4], Rc<State<P>>)>>, len: int) -> bool {
    forall|g: int, j: int|
        0 <= g < states.len() && 0 <= j < states[g].len() ==> (*#[trigger] states[g][j].1).total_len <= len
}

impl<D: Scorer> HMM<D> {
    /// The decoder's consistency: it counted every token taken in, keeps no more
    /// generations than tokens, kept tokens below 255, states reached after no more tokens
    /// than typed, and the context of the last given history.
    pub closed spec fn consistent(&self) -> bool {
        &&& self.len == self.fed@.len()
        &&& self.states@.len() <= self.tokens@.len()
        &&& forall|k: int| 0 <= k < self.tokens@.len() ==> #[trigger] self.tokens@[k] < 255
        &&& states_within(self.states_spec(), self.len as int)
        &&& self.hist@ == history_window_spec(self.given_hist@)
    }

    /// The model's contract in the decoder's terms: its reading is the sentence of the
    /// best-ranked state of the newest generation, and a consistent decoder counted every
    /// token it took in, keeps no more generations than tokens, keeps tokens below 255,
    /// holds no state reached after more tokens than typed, and keeps the context of the
    /// history it was given.
    pub proof fn lemma_model_terms(&self)
        ensures
            self.reading() == reading_of(self.states_spec()),
            self.fed() == self.fed_spec(),
            self.history() == self.history_spec(),
            self.wf() ==> {
                &&& self.len_spec() == self.fed().len()
                &&& self.states_spec().len() <= self.tokens_spec().len()
                &&& forall|k: int| 0 <= k < self.tokens_spec().len() ==> #[trigger] self.tokens_spec()[k] < 255
                &&& states_within(self.states_spec(), self.len_spec() as int)
                &&& self.hist_spec() == history_window_spec(self.history())
            },
    {
    }

    /// After a token other than a separator: the statistics `d` score the candidates, and
    /// the generation of their beam joins the last `enc.max_len` generations.
    fn extend(&mut self, enc: &Encoding, d: &D)
        requires
            enc.max_len > 0,
            old(self).states_spec().len() <= old(self).tokens_spec().len(),
            old(self).tokens_spec().len() > 0,
            forall|k: int| 0 <= k < old(self).tokens_spec().len() ==> #[trigger] old(self).tokens_spec()[k] < 255,
            states_within(old(self).states_spec(), old(self).len_spec() as int),
        ensures
            final(self).tokens_spec() == old(self).tokens_spec(),
            final(self).hist_spec() == old(self).hist_spec(),
            final(self).len_spec() == old(self).len_spec(),
            final(self).fed@ == old(self).fed@,
            final(self).given_hist@ == old(self).given_hist@,
            final(self).states_spec().len() == rotate_insert_spec(
                old(self).states_spec(),
                enc.max_len as int,
                Seq::<([u16; 4], Rc<State<(D::Score, u64)>>)>::empty(),
            ).len(),
            states_within(final(self).states_spec(), old(self).len_spec() as int),
            exists|
                cands: Seq<Candidate>,
                scores: Seq<(D::Score, u64)>,
                sel: Seq<usize>,
                gen: Seq<([u16; 4], Rc<State<(D::Score, u64)>>)>,
            |
                #[trigger] extends_by(
                    old(self).states_spec(),
                    final(self).states_spec(),
                    next_plan(
                        old(self).states_spec(),
                        old(self).tokens_spec(),
                        old(self).hist_spec(),
                        old(self).len_spec(),
                        enc.map@,
                        enc.max_len as int,
                    ),
                    enc.max_len as int,
                    old(self).len_spec(),
                    cands,
                    scores,
                    sel,
                    gen,
                ) && scored_by(d, cands, scores, old(self).states_spec()),
    {
        let ghost mid = self.states_spec();
        assert(self.tokens_spec().last() < 255);
        let cands = self.candidates(enc);
        assert forall|q: int|
            0 <= q < cands@.len() implies parent_in(#[trigger] cands@[q], self.states_spec()) by {
            assert(spelled_by_span(cands@[q], self.states_spec(), self.tokens_spec(), enc.map@));
        }
        let mut scores: Vec<(D::Score, u64)> = Vec::new();
        let mut ranks: Vec<u64> = Vec::new();
        let mut k: usize = 0;
        while k < cands.len()
            invariant
                mid == self.states_spec(),
                k <= cands@.len(),
                scores@.len() == k,
                ranks@.len() == k,
                forall|q: int| 0 <= q < cands@.len() ==> parent_in(#[trigger] cands@[q], mid),
                forall|q: int| 0 <= q < k ==> #[trigger] ranks@[q] == scores@[q].1,
                forall|q: int|
                    0 <= q < k ==> call_ensures(D::score, (d, parent_score(cands@[q], mid), &cands@[q]), #[trigger] scores@[q]),
            decreases cands@.len() - k,
        {
            let c = &cands[k];
            assert(parent_in(cands@[k as int], mid));
            let parent = match c.parent {
                Some((g, j)) => {
                    assert(self.states@[g as int]@ == mid[g as int]);
                    Some(self.states[g][j].1.total_p.0)
                },
                None => None,
            };
            assert(parent == parent_score(cands@[k as int], mid));
            let sc = d.score(parent, c);
            ranks.push(sc.1);
            scores.push(sc);
            k = k + 1;
        }
        assert(ranks@ =~= ranks_of(scores@));
        let sel = select_beam(&cands, &ranks);
        assert forall|q: int| 0 <= q < sel@.len() implies #[trigger] sel@[q] < cands@.len() by {
            assert(best_of_key(cands@, ranks@, sel@[q] as int));
        }
        let gen = self.build_generation(&cands, &scores, &sel);
        let ghost plan = next_plan(mid, self.tokens_spec(), self.hist_spec(), self.len_spec(), enc.map@, enc.max_len as int);
        self.push_generation(enc, gen);
        proof {
            assert(extends_by(mid, self.states_spec(), plan, enc.max_len as int, self.len_spec(), cands@, scores@, sel@, gen@));
            assert(scored_by(d, cands@, scores@, mid));
            let st = self.states_spec();
            assert forall|g: int, j: int| 0 <= g < st.len() && 0 <= j < st[g].len() implies (*#[trigger] st[g][j].1).total_len <= self.len as int by {
                if mid.len() == enc.max_len {
                    if g < st.len() - 1 {
                        assert(st[g] == mid[g + 1]);
                    } else {
                        assert(st[g] == gen@);
                    }
                } else {
                    if g < st.len() - 1 {
                        assert(st[g] == mid[g]);
                    } else {
                        assert(st[g] == gen@);
                    }
                }
            }
        }
    }

    /// The new generation: for each index of the beam `sel`, the state of that candidate,
    /// reached after all tokens typed, with its score.
    fn build_generation(&self, cands: &Vec<Candidate>, scores: &Vec<(D::Score, u64)>, sel: &Vec<usize>) -> (r: Vec<
        ([u16; 4], Rc<State<(D::Score, u64)>>),
    >)
        requires
            cands@.len() == scores@.len(),
            forall|q: int| 0 <= q < sel@.len() ==> #[trigger] sel@[q] < cands@.len(),
            forall|q: int| 0 <= q < cands@.len() ==> parent_in(#[trigger] cands@[q], self.states_spec()),
        ensures
            generation_of(r@, cands@, scores@, sel@, self.states_spec(), self.len_spec()),
    {
        let mut r: Vec<([u16; 4], Rc<State<(D::Score, u64)>>)> = Vec::new();
        let mut k: usize = 0;
        while k < sel.len()
            invariant
                k <= sel@.len(),
                r@.len() == k,
                cands@.len() == scores@.len(),
                forall|q: int| 0 <= q < sel@.len() ==> #[trigger] sel@[q] < cands@.len(),
                forall|q: int| 0 <= q < cands@.len() ==> parent_in(#[trigger] cands@[q], self.states_spec()),
                forall|q: int|
                    0 <= q < k ==> {
                        &&& built_from(#[trigger] r@[q], cands@[sel@[q] as int], self.states_spec())
                        &&& (*r@[q].1).total_len == self.len_spec()
                        &&& (*r@[q].1).total_p == scores@[sel@[q] as int]
                    },
            decreases sel@.len() - k,
        {
            let i = sel[k];
            let c = &cands[i];
            assert(parent_in(cands@[i as int], self.states_spec()));
            let parent = match c.parent {
                Some((g, j)) => {
                    assert(self.states@[g as int]@ == self.states_spec()[g as int]);
                    Some(share(&self.states[g][j].1))
                },
                None => None,
            };
            let s = State { total_len: self.len, total_p: scores[i], len: c.len, id: c.id, parent };
            let ghost r0 = r@;
            r.push((c.key, Rc::new(s)));
            assert forall|q: int|
                0 <= q < k + 1 implies {
                    &&& built_from(#[trigger] r@[q], cands@[sel@[q] as int], self.states_spec())
                    &&& (*r@[q].1).total_len == self.len_spec()
                    &&& (*r@[q].1).total_p == scores@[sel@[q] as int]
                } by {
                if q < k {
                    assert(r@[q] == r0[q]);
                }
            }
            k = k + 1;
        }
        r
    }
}

impl<D: Scorer> SentenceModel for HMM<D> {
    type Dict = D;

    closed spec fn wf(&self) -> bool {
        self.consistent()
    }

    closed spec fn fed(&self) -> Seq<u8> {
        self.fed@
    }

    closed spec fn history(&self) -> Seq<u16> {
        self.given_hist@
    }

    closed spec fn reading(&self) -> Option<Seq<u16>> {
        reading_of(self.states_spec())
    }

    closed spec fn same_state(&self, other: HMM<D>) -> bool {
        same_search(*self, other)
    }

    closed spec fn is_fresh(&self) -> bool {
        &&& self.tokens_spec() == Seq::<u8>::empty()
        &&& self.states_spec() == Seq::<Seq<([u16; 4], Rc<State<(D::Score, u64)>>)>>::empty()
        &&& self.len_spec() == 0
        &&& self.fed_spec() == Seq::<u8>::empty()
        &&& self.hist_spec() == history_window_spec(self.history_spec())
    }

    closed spec fn stepped(&self, next: HMM<D>, enc: Encoding, d: D, c: u8) -> bool {
        appended(*self, next, enc, &d, c)
    }

    closed spec fn determined(d: D) -> bool {
        scores_determined(&d)
    }

    proof fn lemma_same_reflexive(a: HMM<D>) {
    }

    proof fn lemma_same_equivalence(a: HMM<D>, b: HMM<D>, c: HMM<D>) {
    }

    proof fn lemma_fresh_same(a: HMM<D>, b: HMM<D>) {
    }

    proof fn lemma_stepped_from_same(a: HMM<D>, a2: HMM<D>, b: HMM<D>, enc: Encoding, d: D, c: u8) {
    }

    proof fn lemma_step_determined(a1: HMM<D>, a2: HMM<D>, b1: HMM<D>, b2: HMM<D>, enc: Encoding, d: D, c: u8) {
        law_append_determined(a1, a2, b1, b2, enc, &d, c);
    }

    /// No tokens kept, no generations, no history (a context of zeros).
    fn new(enc: &Encoding, _dict: &D) -> (h: HMM<D>)
        ensures
            h.tokens_spec() == Seq::<u8>::empty(),
            h.states_spec() == Seq::<Seq<([u16; 4], Rc<State<(D::Score, u64)>>)>>::empty(),
            h.len_spec() == 0,
            h.hist_spec() == seq![0u16, 0u16, 0u16, 0u16],
            h.reading() is None,
    {
        let h = HMM {
            tokens: Vec::with_capacity(enc.max_len),
            len: 0,
            hist: [0; 4],
            states: Vec::new(),
            fed: Ghost(Seq::empty()),
            given_hist: Ghost(Seq::empty()),
        };
        assert(h.states_spec() =~= Seq::<Seq<([u16; 4], Rc<State<(D::Score, u64)>>)>>::empty());
        assert(h.hist@ =~= history_window_spec(Seq::<u16>::empty()));
        h
    }

    /// The token is kept among the last `enc.max_len`; a separator (`'\''`) restarts the
    /// search; any other token adds the generation of the beam of the candidates after the
    /// token, as the statistics score them.
    fn append(&mut self, enc: &Encoding, d: &D, c: u8)
        ensures
            appended(*old(self), *final(self), *enc, d, c),
            final(self).tokens_spec() == rotate_insert_spec(old(self).tokens_spec(), enc.max_len as int, c),
            final(self).len_spec() == old(self).len_spec() + 1,
            final(self).hist_spec() == old(self).hist_spec(),
            c == 39 ==> restarted(old(self).states_spec(), final(self).states_spec()),
            c != 39 ==> exists|
                cands: Seq<Candidate>,
                scores: Seq<(D::Score, u64)>,
                sel: Seq<usize>,
                gen: Seq<([u16; 4], Rc<State<(D::Score, u64)>>)>,
            |
                #[trigger] extends_by(
                    old(self).states_spec(),
                    final(self).states_spec(),
                    next_plan(
                        old(self).states_spec(),
                        final(self).tokens_spec(),
                        final(self).hist_spec(),
                        final(self).len_spec(),
                        enc.map@,
                        enc.max_len as int,
                    ),
                    enc.max_len as int,
                    final(self).len_spec(),
                    cands,
                    scores,
                    sel,
                    gen,
                ) && scored_by(d, cands, scores, old(self).states_spec()),
            old(self).tokens_spec().len() <= enc.max_len ==> final(self).states_spec().len()
                <= final(self).tokens_spec().len() <= enc.max_len,
    {
        let ghost old_states = self.states_spec();
        let ghost old_len = self.len as int;
        let ghost old_tokens = self.tokens@;
        proof {
            if c == 39 && old_states.len() > 0 {
                assert forall|j: int| 0 <= j < old_states.last().len() implies (*#[trigger] old_states.last()[j].1).total_len < u16::MAX by {
                    assert(old_states.last()[j] == old_states[old_states.len() - 1][j]);
                }
            }
        }
        let gen_needed = self.begin_append(enc, c);
        proof {
            lemma_window_lengths(old_tokens, old_states, enc.max_len as int, c, Seq::<([u16; 4], Rc<State<(D::Score, u64)>>)>::empty());
            if old_tokens.len() == enc.max_len {
                assert forall|k: int| 0 <= k < self.tokens@.len() implies #[trigger] self.tokens@[k] < 255 by {
                    if k < self.tokens@.len() - 1 {
                        assert(self.tokens@[k] == old_tokens[k + 1]);
                    }
                }
            } else {
                assert forall|k: int| 0 <= k < self.tokens@.len() implies #[trigger] self.tokens@[k] < 255 by {
                    if k < self.tokens@.len() - 1 {
                        assert(self.tokens@[k] == old_tokens[k]);
                    }
                }
            }
        }
        let ghost mut w_cands: Seq<Candidate> = Seq::empty();
        let ghost mut w_scores: Seq<(D::Score, u64)> = Seq::empty();
        let ghost mut w_sel: Seq<usize> = Seq::empty();
        let ghost mut w_gen: Seq<([u16; 4], Rc<State<(D::Score, u64)>>)> = Seq::empty();
        if gen_needed {
            let ghost mid = self.states_spec();
            self.extend(enc, d);
            proof {
                lemma_window_lengths(old_tokens, old_states, enc.max_len as int, c, Seq::<([u16; 4], Rc<State<(D::Score, u64)>>)>::empty());
                let plan = next_plan(mid, self.tokens_spec(), self.hist_spec(), self.len_spec(), enc.map@, enc.max_len as int);
                let (cs, sc, se, ge) = choose|
                    cs: Seq<Candidate>,
                    sc: Seq<(D::Score, u64)>,
                    se: Seq<usize>,
                    ge: Seq<([u16; 4], Rc<State<(D::Score, u64)>>)>,
                |
                    extends_by(mid, self.states_spec(), plan, enc.max_len as int, self.len_spec(), cs, sc, se, ge)
                        && scored_by(d, cs, sc, mid);
                w_cands = cs;
                w_scores = sc;
                w_sel = se;
                w_gen = ge;
            }
        } else {
            proof {
                let st = self.states_spec();
                assert forall|g: int, j: int| 0 <= g < st.len() && 0 <= j < st[g].len() implies (*#[trigger] st[g][j].1).total_len <= self.len as int by {
                    assert(g == 0);
                    let last = old_states.last();
                    assert(last[j] == old_states[old_states.len() - 1][j]);
                    assert((*st[0][j].1).total_len == (*last[j].1).total_len + 1);
                }
            }
        }
        self.fed = Ghost(self.fed@.push(c));
        proof {
            if c != 39 {
                assert(extends_by(
                    old_states,
                    self.states_spec(),
                    next_plan(old_states, self.tokens_spec(), self.hist_spec(), self.len_spec(), enc.map@, enc.max_len as int),
                    enc.max_len as int,
                    self.len_spec(),
                    w_cands,
                    w_scores,
                    w_sel,
                    w_gen,
                ) && scored_by(d, w_cands, w_scores, old_states));
            }
        }
    }

    /// Keeps the last four ids as the context; tokens and generations stay.
    fn set_history(&mut self, hist: &[u16])
        ensures
            final(self).hist_spec() == history_window_spec(hist@),
            final(self).tokens_spec() == old(self).tokens_spec(),
            final(self).states_spec() == old(self).states_spec(),
            final(self).len_spec() == old(self).len_spec(),
    {
        self.hist = history_window(hist);
        self.given_hist = Ghost(hist@);
    }

    /// The sentence ending in the best-ranked state of the newest generation (the first
    /// such state on ties).
    fn get_sentence(&self, _enc: &Encoding, _d: &D) -> (r: Option<Vec<u16>>) {
        let n = self.states.len();
        if n == 0 {
            return None;
        }
        let last = &self.states[n - 1];
        let ghost lv = self.states_spec().last();
        assert(last@ == lv);
        if last.len() == 0 {
            return None;
        }
        let mut best: usize = 0;
        let mut j: usize = 1;
        while j < last.len()
            invariant
                lv == last@,
                0 <= best < j <= lv.len(),
                forall|q: int| 0 <= q < j ==> rank_of(#[trigger] lv[q]) <= rank_of(lv[best as int]),
                forall|q: int| 0 <= q < best ==> rank_of(#[trigger] lv[q]) < rank_of(lv[best as int]),
            decreases lv.len() - j,
        {
            if last[j].1.total_p.1 > last[best].1.total_p.1 {
                best = j;
            }
            j = j + 1;
        }
        let r = trace_sequence(&*last[best].1);
        proof {
            assert(is_best(lv, best as int));
            lemma_best_unique(lv, best as int, choose|b: int| is_best(lv, b));
        }
        Some(r)
    }

    /// An exact copy: the same tokens, generations (sharing their states), context and count.
    fn checkpoint(&self) -> (r: HMM<D>)
        ensures
            r.tokens_spec() == self.tokens_spec(),
            r.states_spec() == self.states_spec(),
            r.hist_spec() == self.hist_spec(),
            r.len_spec() == self.len_spec(),
    {
        let mut tokens: Vec<u8> = Vec::new();
        let mut k: usize = 0;
        while k < self.tokens.len()
            invariant
                k <= self.tokens@.len(),
                tokens@ == self.tokens@.take(k as int),
            decreases self.tokens@.len() - k,
        {
            tokens.push(self.tokens[k]);
            assert(self.tokens@.take(k + 1) =~= self.tokens@.take(k as int).push(self.tokens@[k as int]));
            k = k + 1;
        }
        assert(self.tokens@.take(self.tokens@.len() as int) =~= self.tokens@);
        let ghost sv = self.states_spec();
        let mut states: Vec<Vec<([u16; 4], Rc<State<(D::Score, u64)>>)>> = Vec::new();
        let mut g: usize = 0;
        while g < self.states.len()
            invariant
                g <= self.states@.len(),
                sv == self.states_spec(),
                states@.len() == g,
                forall|q: int| 0 <= q < g ==> #[trigger] states@[q]@ == sv[q],
            decreases self.states@.len() - g,
        {
            let src = &self.states[g];
            assert(src@ == sv[g as int]);
            let mut gen: Vec<([u16; 4], Rc<State<(D::Score, u64)>>)> = Vec::new();
            let mut j: usize = 0;
            while j < src.len()
                invariant
                    j <= src@.len(),
                    gen@ == src@.take(j as int),
                decreases src@.len() - j,
            {
                let e = (src[j].0, share(&src[j].1));
                gen.push(e);
                assert(src@.take(j + 1) =~= src@.take(j as int).push(src@[j as int]));
                j = j + 1;
            }
            assert(src@.take(src@.len() as int) =~= src@);
            states.push(gen);
            g = g + 1;
        }
        let r = HMM {
            tokens,
            states,
            hist: self.hist,
            len: self.len,
            fed: Ghost(self.fed@),
            given_hist: Ghost(self.given_hist@),
        };
        assert(r.states_spec() =~= sv);
        r
    }
}

/// `b` is the decoder `a` after it took in token `c`: the token joins the kept tokens,
/// the count grows by one, the context stays; a separator restarts the search, and any
/// other token adds the generation of the beam of the candidates after the token, as the
/// statistics `d` score them.
pub open spec fn appended<D: Scorer>(a: HMM<D>, b: HMM<D>, enc: Encoding, d: &D, c: u8) -> bool {
    &&& b.tokens_spec() == rotate_insert_spec(a.tokens_spec(), enc.max_len as int, c)
    &&& b.len_spec() == a.len_spec() + 1
    &&& b.hist_spec() == a.hist_spec()
    &&& b.fed_spec() == a.fed_spec().push(c)
    &&& b.history_spec() == a.history_spec()
    &&& c == 39 ==> restarted(a.states_spec(), b.states_spec())
    &&& c != 39 ==> exists|
        cands: Seq<Candidate>,
        scores: Seq<(D::Score, u64)>,
        sel: Seq<usize>,
        gen: Seq<([u16; 4], Rc<State<(D::Score, u64)>>)>,
    |
        #[trigger] extends_by(
            a.states_spec(),
            b.states_spec(),
            next_plan(a.states_spec(), b.tokens_spec(), b.hist_spec(), b.len_spec(), enc.map@, enc.max_len as int),
            enc.max_len as int,
            b.len_spec(),
            cands,
            scores,
            sel,
            gen,
        ) && scored_by(d, cands, scores, a.states_spec())
}

/// The two decoders hold the same search: the same kept tokens, generations, context and
/// count, and took in the same tokens after the same history.
pub open spec fn same_search<D: Scorer>(a: HMM<D>, b: HMM<D>) -> bool {
    &&& a.tokens_spec() == b.tokens_spec()
    &&& a.states_spec() == b.states_spec()
    &&& a.hist_spec() == b.hist_spec()
    &&& a.len_spec() == b.len_spec()
    &&& a.fed_spec() == b.fed_spec()
    &&& a.history_spec() == b.history_spec()
}

/// The statistics `d` score a candidate the same each time it is scored with the same
/// parent score.
pub open spec fn scores_determined<D: Scorer>(d: &D) -> bool {
    forall|p: Option<D::Score>, c: Candidate, r1: (D::Score, u64), r2: (D::Score, u64)|
        #![trigger call_ensures(D::score, (d, p, &c), r1), call_ensures(D::score, (d, p, &c), r2)]
        call_ensures(D::score, (d, p, &c), r1) && call_ensures(D::score, (d, p, &c), r2) ==> r1 == r2
}

proof fn lemma_plan_fixes_candidates(r1: Seq<Candidate>, r2: Seq<Candidate>, plan: Seq<Plan>)
    requires
        matches_plan(r1, plan),
        matches_plan(r2, plan),
    ensures
        r1 == r2,
{
    assert forall|k: int| 0 <= k < r1.len() implies r1[k] == r2[k] by {
        let a = r1[k];
        let b = r2[k];
        assert(cand_matches(a, plan[k]) && cand_matches(b, plan[k]));
        lemma_array_eq(a.key, b.key);
        lemma_array_eq(a.context, b.context);
    }
    assert(r1 =~= r2);
}

proof fn lemma_array_eq(a: [u16; 4], b: [u16; 4])
    requires
        a@ == b@,
    ensures
        a == b,
{
    assert(a == b);
}

proof fn lemma_beam_agree(cands: Seq<Candidate>, ranks: Seq<u64>, s1: Seq<usize>, s2: Seq<usize>, q: int)
    requires
        is_beam(cands, ranks, s1),
        is_beam(cands, ranks, s2),
        0 <= q < s1.len(),
        q < s2.len(),
    ensures
        s1[q] == s2[q],
    decreases q,
{
    if q > 0 {
        lemma_beam_agree(cands, ranks, s1, s2, q - 1);
    }
    assert forall|p: int| 0 <= p < q implies s1[p] == s2[p] by {
        lemma_beam_agree(cands, ranks, s1, s2, p);
    }
    lemma_beam_not_before(cands, ranks, s1, s2, q);
    lemma_beam_not_before(cands, ranks, s2, s1, q);
}

/// Where two beams agree before `q`, the one's entry at `q` does not go before the other's.
proof fn lemma_beam_not_before(cands: Seq<Candidate>, ranks: Seq<u64>, s1: Seq<usize>, s2: Seq<usize>, q: int)
    requires
        is_beam(cands, ranks, s1),
        is_beam(cands, ranks, s2),
        0 <= q < s1.len(),
        q < s2.len(),
        forall|p: int| 0 <= p < q ==> s1[p] == s2[p],
    ensures
        !outranks(ranks, s1[q] as int, s2[q] as int),
{
    let a = s1[q];
    let b = s2[q];
    if outranks(ranks, a as int, b as int) {
        assert(best_of_key(cands, ranks, a as int));
        if s2.contains(a) {
            let p = choose|p: int| 0 <= p < s2.len() && s2[p] == a;
            if p < q {
                assert(s1[p] == a);
                assert(outranks(ranks, s1[p] as int, s1[q] as int));
            } else if p > q {
                assert(outranks(ranks, s2[q] as int, s2[p] as int));
            }
        } else {
            assert(outranks(ranks, s2[q] as int, a as int));
        }
    }
}

proof fn lemma_beam_unique(cands: Seq<Candidate>, ranks: Seq<u64>, s1: Seq<usize>, s2: Seq<usize>)
    requires
        is_beam(cands, ranks, s1),
        is_beam(cands, ranks, s2),
    ensures
        s1 == s2,
{
    assert forall|q: int| 0 <= q < s1.len() && q < s2.len() implies s1[q] == s2[q] by {
        lemma_beam_agree(cands, ranks, s1, s2, q);
    }
    lemma_beam_length(cands, ranks, s1, s2);
    lemma_beam_length(cands, ranks, s2, s1);
    assert(s1 =~= s2);
}

/// A beam is no shorter than another one that agrees with it as far as both go.
proof fn lemma_beam_length(cands: Seq<Candidate>, ranks: Seq<u64>, s1: Seq<usize>, s2: Seq<usize>)
    requires
        is_beam(cands, ranks, s1),
        is_beam(cands, ranks, s2),
        forall|q: int| 0 <= q < s1.len() && q < s2.len() ==> s1[q] == s2[q],
    ensures
        s2.len() <= s1.len(),
{
    if s1.len() < s2.len() {
        let n = s1.len() as int;
        let x = s2[n];
        assert(best_of_key(cands, ranks, x as int));
        if s1.contains(x) {
            let p = choose|p: int| 0 <= p < s1.len() && s1[p] == x;
            assert(s2[p] == x);
            assert(outranks(ranks, s2[p] as int, s2[n] as int));
        }
    }
}

proof fn lemma_generation_unique<S>(
    g1: Seq<([u16; 4], Rc<State<(S, u64)>>)>,
    g2: Seq<([u16; 4], Rc<State<(S, u64)>>)>,
    cands: Seq<Candidate>,
    scores: Seq<(S, u64)>,
    sel: Seq<usize>,
    states: Seq<Seq<([u16; 4], Rc<State<(S, u64)>>)>>,
    len: u16,
)
    requires
        generation_of(g1, cands, scores, sel, states, len),
        generation_of(g2, cands, scores, sel, states, len),
    ensures
        g1 == g2,
{
    assert forall|q: int| 0 <= q < g1.len() implies g1[q] == g2[q] by {
        assert(built_from(g1[q], cands[sel[q] as int], states));
        assert(built_from(g2[q], cands[sel[q] as int], states));
        assert(*g1[q].1 == *g2[q].1);
    }
    assert(g1 =~= g2);
}

proof fn lemma_restart_unique<P>(old: Seq<Seq<([u16; 4], Rc<State<P>>)>>, n1: Seq<Seq<([u16; 4], Rc<State<P>>)>>, n2: Seq<Seq<([u16; 4], Rc<State<P>>)>>)
    requires
        restarted(old, n1),
        restarted(old, n2),
    ensures
        n1 == n2,
{
    if old.len() > 0 {
        assert forall|j: int| 0 <= j < n1[0].len() implies n1[0][j] == n2[0][j] by {
            let (k1, s1) = n1[0][j];
            let (k2, s2) = n2[0][j];
            assert(*s1 == *s2);
        }
        assert(n1[0] =~= n2[0]);
    }
    assert(n1 =~= n2);
}

/// The decoder's step depends only on the search it holds, the token and the statistics,
/// when the statistics score each candidate the same each time: two decoders holding the
/// same search hold the same search after taking in the same token.
pub proof fn law_append_determined<D: Scorer>(a1: HMM<D>, a2: HMM<D>, b1: HMM<D>, b2: HMM<D>, enc: Encoding, d: &D, c: u8)
    requires
        scores_determined(d),
        same_search(a1, a2),
        appended(a1, b1, enc, d, c),
        appended(a2, b2, enc, d, c),
    ensures
        same_search(b1, b2),
{
    let old = a1.states_spec();
    if c == 39 {
        lemma_restart_unique(old, b1.states_spec(), b2.states_spec());
    } else {
        let plan = next_plan(old, b1.tokens_spec(), b1.hist_spec(), b1.len_spec(), enc.map@, enc.max_len as int);
        let (c1, sc1, se1, ge1) = choose|
            cands: Seq<Candidate>,
            scores: Seq<(D::Score, u64)>,
            sel: Seq<usize>,
            gen: Seq<([u16; 4], Rc<State<(D::Score, u64)>>)>,
        |
            #[trigger] extends_by(old, b1.states_spec(), plan, enc.max_len as int, b1.len_spec(), cands, scores, sel, gen)
                && scored_by(d, cands, scores, old);
        let (c2, sc2, se2, ge2) = choose|
            cands: Seq<Candidate>,
            scores: Seq<(D::Score, u64)>,
            sel: Seq<usize>,
            gen: Seq<([u16; 4], Rc<State<(D::Score, u64)>>)>,
        |
            #[trigger] extends_by(old, b2.states_spec(), plan, enc.max_len as int, b2.len_spec(), cands, scores, sel, gen)
                && scored_by(d, cands, scores, old);
        lemma_plan_fixes_candidates(c1, c2, plan);
        assert forall|k: int| 0 <= k < sc1.len() implies sc1[k] == sc2[k] by {
            assert(call_ensures(D::score, (d, parent_score(c1[k], old), &c1[k]), sc1[k]));
            assert(call_ensures(D::score, (d, parent_score(c1[k], old), &c1[k]), sc2[k]));
        }
        assert(sc1 =~= sc2);
        lemma_beam_unique(c1, ranks_of(sc1), se1, se2);
        lemma_generation_unique(ge1, ge2, c1, sc1, se1, old, b1.len_spec());
    }
}

/// Typing a token and then either adding a generation or restarting after a separator
/// keeps every generation within the tokens kept, and the tokens within the longest
/// spelling: the token windows that `candidates` takes always exist.
pub proof fn law_generations_within_tokens<G>(
    tokens: Seq<u8>,
    states: Seq<G>,
    c: u8,
    gen: G,
    max_len: int,
)
    requires
        max_len > 0,
        states.len() <= tokens.len() <= max_len,
    ensures
        ({
            let t = rotate_insert_spec(tokens, max_len, c);
            &&& states.len() <= t.len() <= max_len
            &&& rotate_insert_spec(states, max_len, gen).len() <= t.len()
            &&& 1 <= t.len()
        }),
{
}

} // verus!
