# ternary_language

Verified language and grammar processing over ternary sentiment
(-1 / 0 / +1), written in Verus.

- `src/sentiment.rs` — `Sentiment` and `TernaryToken`.
- `src/text.rs` — the Unicode `White_Space` test (verified), the letter and
  case functions the tokenizer relies on (called through small trusted
  wrappers) and the verified `T(v)` notation for raw ternary values.
- `src/tokenizer.rs` — whitespace splitting, word cleaning and the sentiment
  word lists (`TernaryTokenizer`).
- `src/classifier.rs` — `SentimentClassifier`: the sign of the summed token
  values.
- `src/grammar.rs` — symbols, rules, `TernaryGrammar` and string generation.
- `src/parse_tree.rs` — `ParseNode` and the words at its leaves.
- `src/parser.rs` — `TernaryParser`, recursive descent, and the proofs that a
  successful parse spells out its input and is a derivation in the grammar,
  and that the descent ends on grammars without left recursion.
- `src/language_model.rs` — `TernaryLanguageModel`, kept as transition, state
  and first-state counts, with its consistency invariant.
- `app/lib.rs` — the floating-point estimates (confidence, probabilities,
  log probabilities) computed from the verified counts.
