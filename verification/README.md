# vip

The core of an experimental Chinese input method, written in Verus.

- `src/dict.rs`: the dictionary (`Encoding`): a lexicographically sorted map from typed
  token sequences to word ids (`CodeMap`), its text file format, and the exact and prefix
  lookups the candidates come from.
- `src/text.rs`, `src/lex.rs`: lines, fields and decimal numbers of the data files; the
  lexicographic order of token sequences.
- `src/sentence_models.rs`: the `SentenceModel` trait, whose contracts say which tokens
  and history a model has taken in and which sentences it may read, and the incremental
  sentence decoder (`HMM`) that implements it: token window, generations of search
  states, the candidate extensions after each token, the beam (the best state of each
  context, best first, at most `KEEP_N_BEST`) and the best sentence. The scores
  themselves come from the statistics through the `Scorer` trait.
- `src/context.rs`: an input session with checkpoints of the sentence model; resuming
  from a checkpoint leaves the model in the state a fresh run over the whole input
  reaches.
- `src/listing.rs`: the candidate listing that the C interface hands out (one line per
  candidate: tokens taken, a space, the text) and its reading back.
- `src/frontend.rs`: the terminal front end as a state machine (`on_key`): from its state
  and a key to its next state and what to send, fetch and draw.
- `app/`: the program: data files (memory-mapped float tables), the floating-point
  scoring of the decoder (a `Scorer`), the C interface and the terminal loop.
