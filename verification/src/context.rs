use vstd::prelude::*;
use crate::dict::{Encoding, code_spec, known_word};
use crate::sentence_models::SentenceModel;

verus! {

/// A copy of the sentence model is kept after every this many tokens, so that an edit
/// of the input replays only the tokens after the last unchanged copy.
pub const CHECKPOINT_STEP: usize = 3;

/// Length of the longest common prefix of `a` and `b`.
pub open spec fn common_prefix_len_spec(a: Seq<u8>, b: Seq<u8>) -> nat
    decreases a.len(),
{
    if a.len() == 0 || b.len() == 0 || a[0] != b[0] {
        0
    } else {
        1 + common_prefix_len_spec(a.drop_first(), b.drop_first())
    }
}

proof fn lemma_common_prefix_len(a: Seq<u8>, b: Seq<u8>, i: int)
    requires
        0 <= i <= a.len(),
        i <= b.len(),
        forall|k: int| 0 <= k < i ==> a[k] == b[k],
        i == a.len() || i == b.len() || a[i] != b[i],
    ensures
        common_prefix_len_spec(a, b) == i,
    decreases i,
{
    if i > 0 {
        assert forall|k: int| 0 <= k < i - 1 implies a.drop_first()[k] == b.drop_first()[k] by {
            assert(a[k + 1] == b[k + 1]);
        }
        lemma_common_prefix_len(a.drop_first(), b.drop_first(), i - 1);
    }
}

/// Length of the longest common prefix of `a` and `b`.
pub fn common_prefix_len(a: &[u8], b: &[u8]) -> (r: usize)
    ensures
        r == common_prefix_len_spec(a@, b@),
        r <= a@.len(),
        r <= b@.len(),
        a@.take(r as int) == b@.take(r as int),
        r < a@.len() && r < b@.len() ==> a@[r as int] != b@[r as int],
{
    let mut i: usize = 0;
    while i < a.len() && i < b.len() && a[i] == b[i]
        invariant
            i <= a@.len(),
            i <= b@.len(),
            forall|k: int| 0 <= k < i ==> a@[k] == b@[k],
        decreases a@.len() - i,
    {
        i = i + 1;
    }
    proof {
        lemma_common_prefix_len(a@, b@, i as int);
    }
    assert(a@.take(i as int) =~= b@.take(i as int));
    i
}

/// A copy of `x`.
fn copy_bytes(x: &[u8]) -> (r: Vec<u8>)
    ensures
        r@ == x@,
{
    let mut r: Vec<u8> = Vec::new();
    let mut i: usize = 0;
    while i < x.len()
        invariant
            i <= x@.len(),
            r@ == x@.take(i as int),
        decreases x@.len() - i,
    {
        r.push(x[i]);
        assert(x@.take(i + 1) =~= x@.take(i as int).push(x@[i as int]));
        i = i + 1;
    }
    assert(x@.take(x@.len() as int) =~= x@);
    r
}

/// The checkpoints that stay valid when the input changes from `old` to `new`: those
/// taken within their common prefix.
pub open spec fn kept_checkpoints(n_checkpoints: int, old: Seq<u8>, new: Seq<u8>) -> int {
    let c = common_prefix_len_spec(old, new) as int / CHECKPOINT_STEP as int;
    if n_checkpoints < c { n_checkpoints } else { c }
}

/// The state of one input session: the dictionary, the sentence model's statistics, the
/// typed tokens, the word ids before the cursor, the current sentence model and its
/// checkpoints (checkpoint `k` has seen the first `3 * (k + 1)` tokens).
pub struct Context<SM: SentenceModel> {
    input: Vec<u8>,
    hist: Vec<u16>,
    enc: Encoding,
    sm: Option<SM>,
    sms: Vec<SM>,
    smdata: SM::Dict,
    /// The models that a fresh model given the history passes through while it takes in
    /// the input token by token: the current model and the checkpoints are in the same
    /// states as these.
    run: Ghost<Seq<SM>>,
}

/// `run` is a fresh model given the history `hist` and the models it passes through while
/// it takes in `input` token by token.
pub open spec fn is_run<SM: SentenceModel>(run: Seq<SM>, hist: Seq<u16>, input: Seq<u8>, enc: Encoding, d: SM::Dict) -> bool {
    &&& run.len() == input.len() + 1
    &&& run[0].is_fresh()
    &&& run[0].history() == hist
    &&& forall|j: int| 0 <= j < input.len() ==> (#[trigger] run[j]).stepped(run[j + 1], enc, d, input[j])
}

/// Two runs over the same input from fresh models given the same history pass through
/// the same states, when the statistics make each step depend only on the state.
proof fn lemma_runs_agree<SM: SentenceModel>(r1: Seq<SM>, r2: Seq<SM>, hist: Seq<u16>, input: Seq<u8>, enc: Encoding, d: SM::Dict, j: int)
    requires
        SM::determined(d),
        is_run(r1, hist, input, enc, d),
        is_run(r2, hist, input, enc, d),
        0 <= j <= input.len(),
    ensures
        r1[j].same_state(r2[j]),
    decreases j,
{
    if j == 0 {
        SM::lemma_fresh_same(r1[0], r2[0]);
    } else {
        lemma_runs_agree(r1, r2, hist, input, enc, d, j - 1);
        assert(r1[j - 1].stepped(r1[j], enc, d, input[j - 1]));
        assert(r2[j - 1].stepped(r2[j], enc, d, input[j - 1]));
        SM::lemma_step_determined(r1[j - 1], r2[j - 1], r1[j], r2[j], enc, d, input[j - 1]);
    }
}

/// The model `m` is the fresh model given the history `hist` after it took in `tokens`.
pub open spec fn fed_with<SM: SentenceModel>(m: SM, hist: Seq<u16>, tokens: Seq<u8>) -> bool {
    &&& m.wf()
    &&& m.fed() == tokens
    &&& m.history() == hist
}

/// What the candidate `r` read from the sentence `ids` is, with the word list `id` and
/// `n` typed tokens: the characters of the words with `n` when every id is in the word
/// list, else `Err` with the first id that is not.
pub open spec fn reads_as(id: Seq<char>, n: int, ids: Seq<u16>, r: Result<Option<(usize, Vec<char>)>, u16>) -> bool {
    &&& (r is Ok <==> forall|k: int| 0 <= k < ids.len() ==> known_word(id, #[trigger] ids[k]))
    &&& (r matches Ok(c) ==> c matches Some((m, cs)) && m == n && cs@.len() == ids.len() && forall|k: int|
        0 <= k < ids.len() ==> #[trigger] cs@[k] == id[ids[k] - 1])
    &&& (r matches Err(x) ==> exists|k: int|
        0 <= k < ids.len() && ids[k] == x && !known_word(id, x) && forall|q: int|
            0 <= q < k ==> known_word(id, #[trigger] ids[q]))
}

impl<SM: SentenceModel> Context<SM> {
    #[verifier::type_invariant]
    spec fn models_follow_input(self) -> bool {
        &&& forall|k: int|
            0 <= k < self.sms@.len() ==> CHECKPOINT_STEP * (k + 1) <= self.input@.len() && fed_with(
                #[trigger] self.sms@[k],
                self.hist@,
                self.input@.take(CHECKPOINT_STEP * (k + 1)),
            )
        &&& self.sm matches Some(m) ==> fed_with(m, self.hist@, self.input@)
        &&& self.sms@.len() > 0 ==> self.sm is Some
        &&& self.sm matches Some(m) ==> {
            &&& is_run(self.run@, self.hist@, self.input@, self.enc, self.smdata)
            &&& m.same_state(self.run@.last())
            &&& forall|k: int|
                0 <= k < self.sms@.len() ==> (#[trigger] self.sms@[k]).same_state(self.run@[CHECKPOINT_STEP * (k + 1)])
        }
    }

    pub closed spec fn input_spec(&self) -> Seq<u8> {
        self.input@
    }

    pub closed spec fn hist_spec(&self) -> Seq<u16> {
        self.hist@
    }

    pub closed spec fn checkpoints_spec(&self) -> Seq<SM> {
        self.sms@
    }

    pub closed spec fn model_spec(&self) -> Option<SM> {
        self.sm
    }

    pub closed spec fn enc_spec(&self) -> Encoding {
        self.enc
    }

    pub closed spec fn smdata_spec(&self) -> SM::Dict {
        self.smdata
    }

    /// A session with nothing typed and no history.
    pub fn new(enc: Encoding, smdata: SM::Dict) -> (c: Context<SM>)
        ensures
            c.input_spec() == Seq::<u8>::empty(),
            c.hist_spec() == Seq::<u16>::empty(),
            c.checkpoints_spec() == Seq::<SM>::empty(),
            c.model_spec() is None,
            c.enc_spec() == enc,
            c.smdata_spec() == smdata,
    {
        Context {
            input: Vec::new(),
            hist: Vec::new(),
            enc,
            sm: None,
            sms: Vec::new(),
            smdata,
            run: Ghost(Seq::empty()),
        }
    }

    /// The dictionary.
    pub fn enc(&self) -> (r: &Encoding)
        ensures
            *r == self.enc_spec(),
    {
        &self.enc
    }

    /// The sentence model's statistics.
    pub fn smdata(&self) -> (r: &SM::Dict)
        ensures
            *r == self.smdata_spec(),
    {
        &self.smdata
    }

    /// The sentence model that has seen the whole input, if the input was set since the
    /// history was.
    pub fn model(&self) -> (r: Option<&SM>)
        ensures
            r is Some <==> self.model_spec() is Some,
            r matches Some(m) ==> *m == self.model_spec()->0,
    {
        match &self.sm {
            Some(m) => Some(m),
            None => None,
        }
    }

    /// The checkpoints of the sentence model, oldest first.
    pub fn checkpoints(&self) -> (r: &Vec<SM>)
        ensures
            r@ == self.checkpoints_spec(),
    {
        &self.sms
    }

    /// The word ids before the cursor.
    pub fn hist(&self) -> (r: &Vec<u16>)
        ensures
            r@ == self.hist_spec(),
    {
        &self.hist
    }

    /// The typed tokens.
    pub fn input(&self) -> (r: &Vec<u8>)
        ensures
            r@ == self.input_spec(),
    {
        &self.input
    }

    /// Replace the typed tokens by `input`. The checkpoints within the common prefix of
    /// the old and new input are kept, the model is rebuilt from the last of them (or from
    /// a fresh model given the history) by feeding it the remaining tokens, and a new
    /// checkpoint is taken after every third token. The model ends as the fresh model
    /// given the history after taking in the whole input, whatever the input was before,
    /// and checkpoint `k` as the fresh model after the first `3 * (k + 1)` tokens.
    pub fn set_input(&mut self, input: &[u8])
        requires
            forall|k: int| 0 <= k < input@.len() ==> #[trigger] input@[k] < 255,
            input@.len() <= u16::MAX,
            input@.len() > 0 ==> old(self).enc_spec().max_len > 0,
        ensures
            final(self).input_spec() == input@,
            final(self).checkpoints_spec().len() == input@.len() as int / CHECKPOINT_STEP as int,
            forall|k: int|
                0 <= k < kept_checkpoints(old(self).checkpoints_spec().len() as int, old(self).input_spec(), input@)
                    ==> #[trigger] final(self).checkpoints_spec()[k] == old(self).checkpoints_spec()[k],
            final(self).model_spec() matches Some(m) && fed_with(m, old(self).hist_spec(), input@),
            forall|k: int|
                0 <= k < final(self).checkpoints_spec().len() ==> fed_with(
                    #[trigger] final(self).checkpoints_spec()[k],
                    old(self).hist_spec(),
                    input@.take(CHECKPOINT_STEP * (k + 1)),
                ),
            final(self).hist_spec() == old(self).hist_spec(),
            final(self).enc_spec() == old(self).enc_spec(),
            final(self).smdata_spec() == old(self).smdata_spec(),
            exists|run: Seq<SM>|
                #[trigger] is_run(run, old(self).hist_spec(), input@, old(self).enc_spec(), old(self).smdata_spec())
                    && final(self).model_spec()->0.same_state(run.last()) && forall|k: int|
                    0 <= k < final(self).checkpoints_spec().len() ==> (
                    #[trigger] final(self).checkpoints_spec()[k]).same_state(run[CHECKPOINT_STEP * (k + 1)]),
            SM::determined(old(self).smdata_spec()) ==> forall|run: Seq<SM>|
                #[trigger] is_run(run, old(self).hist_spec(), input@, old(self).enc_spec(), old(self).smdata_spec())
                    ==> final(self).model_spec()->0.same_state(run.last()) && forall|k: int|
                    0 <= k < final(self).checkpoints_spec().len() ==> (
                    #[trigger] final(self).checkpoints_spec()[k]).same_state(run[CHECKPOINT_STEP * (k + 1)]),
    {
        proof {
            use_type_invariant(&*self);
        }
        let i = common_prefix_len(input, self.input.as_slice());
        assert(common_prefix_len_spec(input@, self.input@) == common_prefix_len_spec(self.input@, input@)) by {
            assert forall|k: int| 0 <= k < i implies self.input@[k] == input@[k] by {
                assert(self.input@[k] == self.input@.take(i as int)[k]);
                assert(input@[k] == input@.take(i as int)[k]);
            }
            lemma_common_prefix_len(self.input@, input@, i as int);
        }
        let ghost old_sms = self.sms@;
        let ghost old_input = self.input@;
        let ghost hist = self.hist@;
        let ghost kept = kept_checkpoints(old_sms.len() as int, self.input@, input@);
        let ghost old_run = self.run@;
        let ghost enc_v = self.enc;
        let ghost d_v = self.smdata;
        let mut sms: Vec<SM> = Vec::new();
        std::mem::swap(&mut sms, &mut self.sms);
        sms.truncate(i / CHECKPOINT_STEP);
        assert(sms@.len() == kept);
        // the kept checkpoints lie within the common prefix, so they follow the new input too
        assert forall|k: int| 0 <= k < kept implies fed_with(#[trigger] sms@[k], hist, input@.take(CHECKPOINT_STEP * (k + 1))) by {
            assert(sms@[k] == old_sms[k]);
            assert(fed_with(old_sms[k], hist, old_input.take(CHECKPOINT_STEP * (k + 1))));
            assert(CHECKPOINT_STEP * (k + 1) <= i);
            assert(old_input.take(CHECKPOINT_STEP * (k + 1)) =~= input@.take(CHECKPOINT_STEP * (k + 1))) by {
                assert forall|q: int| 0 <= q < CHECKPOINT_STEP * (k + 1) implies old_input[q] == input@[q] by {
                    assert(old_input[q] == old_input.take(i as int)[q]);
                    assert(input@[q] == input@.take(i as int)[q]);
                }
            }
        }
        let ghost mut run: Seq<SM> = Seq::empty();
        let mut sm = match sms.last() {
            Some(x) => {
                assert(sms@[kept - 1] == *x);
                let cp = x.checkpoint();
                proof {
                    run = old_run.take(3 * kept + 1);
                    assert(old_sms[kept - 1].same_state(old_run[3 * kept]));
                    SM::lemma_same_equivalence(cp, *x, old_run[3 * kept]);
                    assert forall|q: int| 0 <= q < 3 * kept implies (#[trigger] run[q]).stepped(run[q + 1], enc_v, d_v, input@[q]) by {
                        assert(old_run[q].stepped(old_run[q + 1], enc_v, d_v, old_input[q]));
                        assert(old_input[q] == old_input.take(i as int)[q]);
                        assert(input@[q] == input@.take(i as int)[q]);
                    }
                }
                cp
            },
            None => {
                let mut s = SM::new(&self.enc, &self.smdata);
                s.set_history(self.hist.as_slice());
                assert(s.fed() =~= input@.take(0));
                proof {
                    run = seq![s];
                    SM::lemma_same_reflexive(s);
                }
                s
            },
        };
        let start = sms.len() * CHECKPOINT_STEP;
        let mut j: usize = start;
        while j < input.len()
            invariant
                start <= j <= input@.len(),
                start == kept * 3,
                kept <= i / 3,
                i <= input@.len(),
                input@.len() <= u16::MAX,
                input@.len() > 0 ==> self.enc.max_len > 0,
                forall|k: int| 0 <= k < input@.len() ==> #[trigger] input@[k] < 255,
                sms@.len() == j / 3,
                kept <= old_sms.len(),
                hist == self.hist@,
                forall|k: int| 0 <= k < kept ==> #[trigger] sms@[k] == old_sms[k],
                forall|k: int|
                    0 <= k < sms@.len() ==> fed_with(#[trigger] sms@[k], hist, input@.take(CHECKPOINT_STEP * (k + 1))),
                fed_with(sm, hist, input@.take(j as int)),
                enc_v == self.enc,
                d_v == self.smdata,
                run.len() == j + 1,
                run[0].is_fresh(),
                run[0].history() == hist,
                forall|q: int| 0 <= q < j ==> (#[trigger] run[q]).stepped(run[q + 1], enc_v, d_v, input@[q]),
                sm.same_state(run[j as int]),
                forall|k: int| 0 <= k < sms@.len() ==> (#[trigger] sms@[k]).same_state(run[CHECKPOINT_STEP * (k + 1)]),
            decreases input@.len() - j,
        {
            assert(input@[j as int] < 255);
            let ghost before = sm;
            sm.append(&self.enc, &self.smdata, input[j]);
            proof {
                SM::lemma_same_equivalence(before, run[j as int], run[j as int]);
                SM::lemma_stepped_from_same(run[j as int], before, sm, enc_v, d_v, input@[j as int]);
                let r0 = run;
                run = run.push(sm);
                SM::lemma_same_reflexive(sm);
                assert forall|q: int| 0 <= q < j + 1 implies (#[trigger] run[q]).stepped(run[q + 1], enc_v, d_v, input@[q]) by {
                    if q < j {
                        assert(run[q] == r0[q] && run[q + 1] == r0[q + 1]);
                    }
                }
                assert forall|k: int| 0 <= k < sms@.len() implies (#[trigger] sms@[k]).same_state(run[CHECKPOINT_STEP * (k + 1)]) by {
                    assert(run[CHECKPOINT_STEP * (k + 1)] == r0[CHECKPOINT_STEP * (k + 1)]);
                }
            }
            assert(input@.take(j + 1) =~= input@.take(j as int).push(input@[j as int]));
            if (j + 1) % CHECKPOINT_STEP == 0 {
                let cp = sm.checkpoint();
                proof {
                    SM::lemma_same_equivalence(cp, sm, run[j + 1]);
                }
                sms.push(cp);
            }
            j = j + 1;
        }
        assert(input@.take(input@.len() as int) =~= input@);
        self.sm = None;
        self.input = copy_bytes(input);
        self.run = Ghost(run);
        self.sm = Some(sm);
        self.sms = sms;
        proof {
            assert(is_run(run, hist, input@, enc_v, d_v));
            assert(run.last() == run[input@.len() as int]);
            assert(sm.same_state(run.last()));
            assert(forall|k: int|
                0 <= k < self.sms@.len() ==> (#[trigger] self.sms@[k]).same_state(run[CHECKPOINT_STEP * (k + 1)]));
            assert(is_run(run, old(self).hist_spec(), input@, old(self).enc_spec(), old(self).smdata_spec()));
            assert(self.model_spec()->0 == sm);
            assert(self.checkpoints_spec() == self.sms@);
            if SM::determined(d_v) {
                assert forall|r2: Seq<SM>| #[trigger] is_run(r2, hist, input@, enc_v, d_v) implies sm.same_state(r2.last())
                    && forall|k: int| 0 <= k < self.sms@.len() ==> (#[trigger] self.sms@[k]).same_state(r2[CHECKPOINT_STEP * (k + 1)]) by {
                    lemma_runs_agree(run, r2, hist, input@, enc_v, d_v, input@.len() as int);
                    SM::lemma_same_equivalence(sm, run.last(), r2.last());
                    assert forall|k: int| 0 <= k < self.sms@.len() implies (#[trigger] self.sms@[k]).same_state(r2[CHECKPOINT_STEP * (k + 1)]) by {
                        lemma_runs_agree(run, r2, hist, input@, enc_v, d_v, CHECKPOINT_STEP * (k + 1));
                        SM::lemma_same_equivalence(self.sms@[k], run[CHECKPOINT_STEP * (k + 1)], r2[CHECKPOINT_STEP * (k + 1)]);
                    }
                }
            }
        }
    }

    /// Replace the text before the cursor by `hist`; every checkpoint is dropped.
    /// Each character must be in the word list.
    pub fn set_hist(&mut self, hist: &[char])
        requires
            forall|k: int| 0 <= k < hist@.len() ==> code_spec(old(self).enc_spec().id@, #[trigger] hist@[k]) is Some,
        ensures
            final(self).hist_spec().len() == hist@.len(),
            forall|k: int|
                0 <= k < hist@.len() ==> Some(#[trigger] final(self).hist_spec()[k]) == code_spec(
                    old(self).enc_spec().id@,
                    hist@[k],
                ),
            final(self).checkpoints_spec() == Seq::<SM>::empty(),
            final(self).model_spec() is None,
            final(self).input_spec() == old(self).input_spec(),
            final(self).enc_spec() == old(self).enc_spec(),
            final(self).smdata_spec() == old(self).smdata_spec(),
    {
        let mut h: Vec<u16> = Vec::new();
        let mut k: usize = 0;
        while k < hist.len()
            invariant
                k <= hist@.len(),
                h@.len() == k,
                forall|q: int| 0 <= q < hist@.len() ==> code_spec(self.enc.id@, #[trigger] hist@[q]) is Some,
                forall|q: int| 0 <= q < k ==> Some(#[trigger] h@[q]) == code_spec(self.enc.id@, hist@[q]),
            decreases hist@.len() - k,
        {
            let c = self.enc.code_of(hist[k]);
            match c {
                Some(x) => h.push(x),
                None => {
                    assert(code_spec(self.enc.id@, hist@[k as int]) is Some);
                },
            }
            k = k + 1;
        }
        proof {
            use_type_invariant(&*self);
        }
        self.sms = Vec::new();
        self.sm = None;
        self.hist = h;
    }

    /// What a sentence read by the model gives as a candidate: nothing when there is no
    /// sentence; else the characters of its words with the number of typed tokens it
    /// spans (the whole input), or `Err(x)` with `x` the first word id that the word list
    /// does not hold.
    pub fn read_sentence(&self, sentence: Option<Vec<u16>>) -> (r: Result<Option<(usize, Vec<char>)>, u16>)
        ensures
            sentence is None ==> r == Ok::<Option<(usize, Vec<char>)>, u16>(None),
            sentence matches Some(ids) ==> reads_as(self.enc_spec().id@, self.input_spec().len() as int, ids@, r),
    {
        match sentence {
            None => Ok(None),
            Some(ids) => match self.enc.words_of(ids.as_slice()) {
                Ok(cs) => Ok(Some((self.input.len(), cs))),
                Err(x) => Err(x),
            },
        }
    }

    /// The sentence the model reads in the whole input, as characters, with the number of
    /// tokens it spans: `Ok(None)` when there is no model or the model reads no sentence,
    /// else what `read_sentence` makes of the model's reading.
    pub fn sentence_candidate(&self) -> (r: Result<Option<(usize, Vec<char>)>, u16>)
        ensures
            self.model_spec() is None ==> r == Ok::<Option<(usize, Vec<char>)>, u16>(None),
            self.model_spec() is Some && self.model_spec()->0.reading() is None ==> r == Ok::<
                Option<(usize, Vec<char>)>,
                u16,
            >(None),
            self.model_spec() is Some && self.model_spec()->0.reading() is Some ==> reads_as(
                self.enc_spec().id@,
                self.input_spec().len() as int,
                self.model_spec()->0.reading()->0,
                r,
            ),
    {
        proof {
            use_type_invariant(self);
        }
        match &self.sm {
            None => Ok(None),
            Some(sm) => {
                let sentence = sm.get_sentence(&self.enc, &self.smdata);
                self.read_sentence(sentence)
            },
        }
    }
}


/// Typing on (the new input extends the old one) keeps every checkpoint taken so far:
/// after `set_input(x)` there are `x.len() / 3` checkpoints, and a following
/// `set_input(y)` with `x` a prefix of `y` (setting `x` again included) keeps them all.
pub proof fn law_typing_on_keeps_checkpoints(x: Seq<u8>, y: Seq<u8>)
    requires
        x.is_prefix_of(y),
    ensures
        kept_checkpoints(x.len() as int / CHECKPOINT_STEP as int, x, y) == x.len() as int / CHECKPOINT_STEP as int,
{
    assert forall|k: int| 0 <= k < x.len() implies x[k] == y[k] by {
        assert(x[k] == y.subrange(0, x.len() as int)[k]);
    }
    lemma_common_prefix_len(x, y, x.len() as int);
}

} // verus!
