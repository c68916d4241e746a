use vstd::prelude::*;
use std::collections::HashMap;
use vstd::std_specs::hash::obeys_key_model;

verus! {

broadcast use vstd::std_specs::hash::group_hash_axioms;

/// The count a counting map holds for `k`, zero when `k` is absent.
pub open spec fn count_at<K>(m: Map<K, usize>, k: K) -> nat {
    if m.contains_key(k) {
        m[k] as nat
    } else {
        0
    }
}

/// The key under which the transition `from -> to` is counted.
pub open spec fn pair_code(from: i8, to: i8) -> int {
    from as int * 256 + to as int
}

/// Whether every state of `seq` is -1, 0 or +1.
pub open spec fn all_ternary(seq: Seq<i8>) -> bool {
    forall|i: int| 0 <= i < seq.len() ==> -1 <= #[trigger] seq[i] <= 1
}

/// How many times `s` occurs in `seq`.
pub open spec fn occurrences(seq: Seq<i8>, s: i8) -> nat
    decreases seq.len(),
{
    if seq.len() == 0 {
        0
    } else {
        occurrences(seq.drop_last(), s) + if seq.last() == s {
            1nat
        } else {
            0nat
        }
    }
}

/// How many times `from` is directly followed by `to` in `seq`.
pub open spec fn pair_count(seq: Seq<i8>, from: i8, to: i8) -> nat
    decreases seq.len(),
{
    if seq.len() < 2 {
        0
    } else {
        pair_count(seq.drop_last(), from, to) + if seq[seq.len() - 2] == from && seq.last() == to {
            1nat
        } else {
            0nat
        }
    }
}

/// The counts of a language model: transitions, states, first states, and the
/// number of training sequences.
pub struct ModelView {
    pub transitions: Map<(i8, i8), nat>,
    pub states: Map<i8, nat>,
    pub initials: Map<i8, nat>,
    pub total_initial: nat,
}

/// The counts after training on `seq`: an empty sequence, or one holding a
/// state other than -1, 0 and +1, changes nothing; otherwise its first state,
/// each of its states and each pair of neighbouring states is counted once
/// more.
pub open spec fn train_spec(m: ModelView, seq: Seq<i8>) -> ModelView {
    if seq.len() == 0 || !all_ternary(seq) {
        m
    } else {
        ModelView {
            transitions: Map::new(
                |k: (i8, i8)| true,
                |k: (i8, i8)| m.transitions[k] + pair_count(seq, k.0, k.1),
            ),
            states: Map::new(|s: i8| true, |s: i8| m.states[s] + occurrences(seq, s)),
            initials: m.initials.insert(seq[0], m.initials[seq[0]] + 1),
            total_initial: m.total_initial + 1,
        }
    }
}

/// The counts can absorb a sequence of `n` states without passing
/// `usize::MAX`.
pub open spec fn has_room(m: ModelView, n: nat) -> bool {
    &&& m.total_initial + 1 <= usize::MAX
    &&& forall|s: i8| #[trigger] m.initials[s] + 1 <= usize::MAX
    &&& forall|s: i8| #[trigger] m.states[s] + n <= usize::MAX
    &&& forall|a: i8, b: i8| #[trigger] m.transitions[(a, b)] + n <= usize::MAX
}

/// The state among -1, 0, +1 (earliest on ties) that most often follows
/// `current`; -1 for a state never seen.
pub open spec fn most_likely_next_spec(m: ModelView, current: i8) -> i8 {
    let a = m.transitions[(current, -1i8)];
    let b = m.transitions[(current, 0i8)];
    let c = m.transitions[(current, 1i8)];
    if m.states[current] == 0 {
        -1i8
    } else if c > a && c > b {
        1i8
    } else if b > a {
        0i8
    } else {
        -1i8
    }
}

/// The counts of a model trained on nothing.
pub open spec fn empty_model() -> ModelView {
    ModelView {
        transitions: Map::new(|k: (i8, i8)| true, |k: (i8, i8)| 0nat),
        states: Map::new(|s: i8| true, |s: i8| 0nat),
        initials: Map::new(|s: i8| true, |s: i8| 0nat),
        total_initial: 0,
    }
}

/// `r` is one of -1, 0, +1, follows `current` at least as often as every
/// state, and strictly more often than every earlier state.
pub open spec fn is_most_likely(m: ModelView, current: i8, r: i8) -> bool {
    &&& -1 <= r <= 1
    &&& forall|t: i8| -1 <= t <= 1 ==> #[trigger] m.transitions[(current, t)] <= m.transitions[(current, r)]
    &&& forall|t: i8| -1 <= t < r ==> #[trigger] m.transitions[(current, t)] < m.transitions[(current, r)]
}

/// The predicted successor of a seen state has the largest transition count
/// (the earliest such state on ties); an unseen state predicts -1.
pub proof fn lemma_most_likely_next_is_argmax(m: ModelView, current: i8)
    ensures
        m.states[current] == 0 ==> most_likely_next_spec(m, current) == -1,
        m.states[current] > 0 ==> is_most_likely(m, current, most_likely_next_spec(m, current)),
{
    let r = most_likely_next_spec(m, current);
    if m.states[current] > 0 {
        assert forall|t: i8| -1 <= t <= 1 implies #[trigger] m.transitions[(current, t)] <= m.transitions[(current, r)] by {
            assert(t == -1 || t == 0 || t == 1);
        }
        assert forall|t: i8| -1 <= t < r implies #[trigger] m.transitions[(current, t)] < m.transitions[(current, r)] by {
            assert(t == -1 || t == 0);
        }
    }
}

/// A Markov-chain model over the states -1, 0 and +1, kept as counts.
pub struct TernaryLanguageModel {
    transitions: HashMap<i32, usize>,
    state_counts: HashMap<i8, usize>,
    initial_counts: HashMap<i8, usize>,
    total_initial: usize,
}

impl View for TernaryLanguageModel {
    type V = ModelView;

    closed spec fn view(&self) -> ModelView {
        ModelView {
            transitions: Map::new(
                |k: (i8, i8)| true,
                |k: (i8, i8)| count_at(self.transitions@, pair_code(k.0, k.1) as i32),
            ),
            states: Map::new(|s: i8| true, |s: i8| count_at(self.state_counts@, s)),
            initials: Map::new(|s: i8| true, |s: i8| count_at(self.initial_counts@, s)),
            total_initial: self.total_initial as nat,
        }
    }
}

fn count_of<K: Eq + std::hash::Hash>(m: &HashMap<K, usize>, k: &K) -> (r: usize)
    requires
        obeys_key_model::<K>(),
    ensures
        r == count_at(m@, *k),
{
    match m.get(k) {
        Some(c) => *c,
        None => 0,
    }
}

fn increment<K: Eq + std::hash::Hash + Copy>(m: &mut HashMap<K, usize>, k: K)
    requires
        obeys_key_model::<K>(),
        count_at(old(m)@, k) < usize::MAX,
    ensures
        final(m)@ == old(m)@.insert(k, (count_at(old(m)@, k) + 1) as usize),
{
    let c = count_of(m, &k);
    m.insert(k, c + 1);
}

fn code(from: i8, to: i8) -> (r: i32)
    ensures
        r == pair_code(from, to),
{
    (from as i32) * 256 + (to as i32)
}

proof fn lemma_pair_code_injective(a: i8, b: i8, c: i8, d: i8)
    ensures
        pair_code(a, b) == pair_code(c, d) ==> a == c && b == d,
{
}

impl TernaryLanguageModel {
    /// A model with all counts zero.
    pub fn new() -> (r: Self)
        ensures
            r@ == empty_model(),
            is_consistent(r@),
    {
        let r = TernaryLanguageModel {
            transitions: HashMap::new(),
            state_counts: HashMap::new(),
            initial_counts: HashMap::new(),
            total_initial: 0,
        };
        assert(r@.transitions =~= Map::new(|k: (i8, i8)| true, |k: (i8, i8)| 0nat));
        assert(r@.states =~= Map::new(|s: i8| true, |s: i8| 0nat));
        assert(r@.initials =~= Map::new(|s: i8| true, |s: i8| 0nat));
        assert(r@ == empty_model());
        proof {
            lemma_new_model_consistent();
        }
        r
    }

    /// How many times `to` followed `from` in the training sequences.
    pub fn transition_count(&self, from: i8, to: i8) -> (r: usize)
        ensures
            r == self@.transitions[(from, to)],
    {
        count_of(&self.transitions, &code(from, to))
    }

    /// How many times `state` occurred in the training sequences.
    pub fn state_count(&self, state: i8) -> (r: usize)
        ensures
            r == self@.states[state],
    {
        count_of(&self.state_counts, &state)
    }

    /// How many training sequences began with `state`.
    pub fn initial_count(&self, state: i8) -> (r: usize)
        ensures
            r == self@.initials[state],
    {
        count_of(&self.initial_counts, &state)
    }

    /// How many sequences the model was trained on.
    pub fn total_initial(&self) -> (r: usize)
        ensures
            r == self@.total_initial,
    {
        self.total_initial
    }

    /// The state among -1, 0, +1 most likely to follow `current` (the earliest
    /// on ties); -1 when `current` was never seen.
    pub fn most_likely_next(&self, current: i8) -> (r: i8)
        ensures
            r == most_likely_next_spec(self@, current),
            self@.states[current] == 0 ==> r == -1,
            self@.states[current] > 0 ==> is_most_likely(self@, current, r),
    {
        if self.state_count(current) == 0 {
            return -1;
        }
        let mut best: i8 = -1;
        let mut best_count = self.transition_count(current, -1);
        let zero = self.transition_count(current, 0);
        if zero > best_count {
            best = 0;
            best_count = zero;
        }
        let one = self.transition_count(current, 1);
        if one > best_count {
            best = 1;
        }
        proof {
            lemma_most_likely_next_is_argmax(self@, current);
        }
        best
    }

    /// Counts one training sequence: its first state, each of its states and
    /// each pair of neighbouring states. An empty sequence, or one holding a
    /// state other than -1, 0 and +1, is ignored.
    pub fn train(&mut self, sequence: &[i8])
        requires
            sequence@.len() > 0 && all_ternary(sequence@) ==> has_room(old(self)@, sequence@.len()),
        ensures
            final(self)@ == train_spec(old(self)@, sequence@),
            is_consistent(old(self)@) ==> is_consistent(final(self)@),
            trains_on(old(self)@, sequence@, final(self)@),
    {
        proof {
            if is_consistent(self@) {
                lemma_train_keeps_consistency(self@, sequence@);
            }
            lemma_train_counts(self@, sequence@);
        }
        let n = sequence.len();
        if n == 0 {
            return;
        }
        for i in 0..n
            invariant
                n == sequence@.len(),
                forall|j: int| 0 <= j < i ==> -1 <= #[trigger] sequence@[j] <= 1,
        {
            let s = sequence[i];
            if s != -1 && s != 0 && s != 1 {
                return;
            }
        }
        let ghost m0 = self@;
        let first = sequence[0];
        assert(m0.initials[first] == count_at(self.initial_counts@, first));
        increment(&mut self.initial_counts, first);
        self.total_initial = self.total_initial + 1;
        let ghost initials_after = self.initial_counts@;
        assert(Map::new(|s: i8| true, |s: i8| count_at(initials_after, s)) =~= m0.initials.insert(
            first,
            m0.initials[first] + 1,
        ));
        for i in 0..n
            invariant
                n == sequence@.len(),
                all_ternary(sequence@),
                has_room(m0, n as nat),
                self.transitions@ == old(self).transitions@,
                self.initial_counts@ == initials_after,
                self.total_initial == m0.total_initial + 1,
                forall|s: i8| #[trigger] count_at(self.state_counts@, s) == m0.states[s] + occurrences(
                    sequence@.take(i as int),
                    s,
                ),
        {
            let s = sequence[i];
            assert(sequence@.take(i + 1).drop_last() =~= sequence@.take(i as int));
            assert(sequence@.take(i + 1).last() == s);
            proof {
                lemma_occurrences_bound(sequence@.take(i as int), s);
            }
            let ghost before = self.state_counts@;
            increment(&mut self.state_counts, s);
            assert forall|x: i8| #[trigger] count_at(self.state_counts@, x) == m0.states[x] + occurrences(
                sequence@.take(i + 1),
                x,
            ) by {
                assert(count_at(before, x) == m0.states[x] + occurrences(sequence@.take(i as int), x));
            }
        }
        assert(sequence@.take(n as int) =~= sequence@);
        let ghost states_after = self.state_counts@;
        for i in 1..n
            invariant
                n == sequence@.len(),
                n >= 1,
                all_ternary(sequence@),
                has_room(m0, n as nat),
                self.initial_counts@ == initials_after,
                self.state_counts@ == states_after,
                self.total_initial == m0.total_initial + 1,
                forall|a: i8, b: i8| #[trigger] count_at(self.transitions@, pair_code(a, b) as i32)
                    == m0.transitions[(a, b)] + pair_count(sequence@.take(i as int), a, b),
        {
            let a = sequence[i - 1];
            let b = sequence[i];
            assert(sequence@.take(i + 1).drop_last() =~= sequence@.take(i as int));
            proof {
                lemma_pair_count_bound(sequence@.take(i as int), a, b);
            }
            assert(sequence@.take(i + 1)[i - 1] == a);
            assert(sequence@.take(i + 1)[i as int] == b);
            let ghost before = self.transitions@;
            let key = code(a, b);
            assert(count_at(before, pair_code(a, b) as i32) == m0.transitions[(a, b)] + pair_count(
                sequence@.take(i as int),
                a,
                b,
            ));
            increment(&mut self.transitions, key);
            assert forall|x: i8, y: i8| #[trigger] count_at(self.transitions@, pair_code(x, y) as i32)
                == m0.transitions[(x, y)] + pair_count(sequence@.take(i + 1), x, y) by {
                lemma_pair_code_injective(x, y, a, b);
                assert(count_at(before, pair_code(x, y) as i32) == m0.transitions[(x, y)] + pair_count(
                    sequence@.take(i as int),
                    x,
                    y,
                ));
            }
        }
        assert(sequence@.take(n as int) =~= sequence@);
        assert(self@.transitions =~= train_spec(m0, sequence@).transitions);
        assert(self@.states =~= train_spec(m0, sequence@).states);
        assert(self@.initials =~= train_spec(m0, sequence@).initials);
    }
}

proof fn lemma_occurrences_bound(seq: Seq<i8>, s: i8)
    ensures
        occurrences(seq, s) <= seq.len(),
    decreases seq.len(),
{
    if seq.len() > 0 {
        lemma_occurrences_bound(seq.drop_last(), s);
    }
}

proof fn lemma_pair_count_bound(seq: Seq<i8>, a: i8, b: i8)
    ensures
        pair_count(seq, a, b) <= seq.len(),
    decreases seq.len(),
{
    if seq.len() >= 2 {
        lemma_pair_count_bound(seq.drop_last(), a, b);
    }
}


/// The counts are those of some training: only the states -1, 0 and +1 are
/// counted; the first-state counts sum to the number of sequences; and the
/// transitions out of a state never outnumber its occurrences, so the
/// estimated probabilities out of a state sum to at most one.
pub open spec fn is_consistent(m: ModelView) -> bool {
    &&& forall|s: i8| !(-1 <= s <= 1) ==> #[trigger] m.states[s] == 0 && m.initials[s] == 0
    &&& forall|a: i8, b: i8| !(-1 <= a <= 1 && -1 <= b <= 1) ==> #[trigger] m.transitions[(a, b)] == 0
    &&& m.total_initial == m.initials[-1i8] + m.initials[0i8] + m.initials[1i8]
    &&& forall|a: i8| #[trigger] m.states[a] >= m.transitions[(a, -1i8)] + m.transitions[(a, 0i8)]
        + m.transitions[(a, 1i8)]
}

proof fn lemma_counts_of_ternary(seq: Seq<i8>, a: i8, b: i8)
    requires
        all_ternary(seq),
    ensures
        !(-1 <= a <= 1) ==> occurrences(seq, a) == 0,
        !(-1 <= a <= 1 && -1 <= b <= 1) ==> pair_count(seq, a, b) == 0,
        occurrences(seq, a) >= pair_count(seq, a, -1i8) + pair_count(seq, a, 0i8) + pair_count(seq, a, 1i8),
        seq.len() > 0 ==> occurrences(seq.drop_last(), a) == pair_count(seq, a, -1i8) + pair_count(
            seq,
            a,
            0i8,
        ) + pair_count(seq, a, 1i8),
    decreases seq.len(),
{
    if seq.len() > 0 {
        let prev = seq.drop_last();
        assert(all_ternary(prev)) by {
            assert forall|i: int| 0 <= i < prev.len() implies -1 <= #[trigger] prev[i] <= 1 by {
                assert(prev[i] == seq[i]);
            }
        }
        assert(-1 <= seq[seq.len() - 1] <= 1);
        lemma_counts_of_ternary(prev, a, b);
        if seq.len() >= 2 {
            assert(prev.last() == seq[seq.len() - 2]);
            assert(-1 <= seq[seq.len() - 2] <= 1);
        }
    }
}

/// A new model is consistent.
pub proof fn lemma_new_model_consistent()
    ensures
        is_consistent(empty_model()),
{
}

/// Training keeps a model consistent.
pub proof fn lemma_train_keeps_consistency(m: ModelView, seq: Seq<i8>)
    requires
        is_consistent(m),
    ensures
        is_consistent(train_spec(m, seq)),
{
    if seq.len() > 0 && all_ternary(seq) {
        let t = train_spec(m, seq);
        assert(-1 <= seq[0] <= 1);
        assert forall|s: i8| !(-1 <= s <= 1) implies #[trigger] t.states[s] == 0 && t.initials[s] == 0 by {
            lemma_counts_of_ternary(seq, s, s);
        }
        assert forall|a: i8, b: i8| !(-1 <= a <= 1 && -1 <= b <= 1) implies #[trigger] t.transitions[(a, b)] == 0 by {
            lemma_counts_of_ternary(seq, a, b);
        }
        assert forall|a: i8| #[trigger] t.states[a] >= t.transitions[(a, -1i8)] + t.transitions[(a, 0i8)]
            + t.transitions[(a, 1i8)] by {
            lemma_counts_of_ternary(seq, a, a);
        }
    }
}


/// Training does not depend on the order of the sequences: training on `a`
/// then `b` gives the same counts as training on `b` then `a`.
pub proof fn lemma_train_order_irrelevant(m: ModelView, a: Seq<i8>, b: Seq<i8>)
    ensures
        train_spec(train_spec(m, a), b) == train_spec(train_spec(m, b), a),
{
    let ab = train_spec(train_spec(m, a), b);
    let ba = train_spec(train_spec(m, b), a);
    assert(ab.transitions =~= ba.transitions);
    assert(ab.states =~= ba.states);
    assert(ab.initials =~= ba.initials);
}


/// Occurrence counts add up over concatenation, and a single state occurs
/// once as itself and never as another state.
pub proof fn lemma_occurrences_additive(a: Seq<i8>, b: Seq<i8>, x: i8, s: i8)
    ensures
        occurrences(a + b, s) == occurrences(a, s) + occurrences(b, s),
        occurrences(seq![x], s) == if x == s {
            1nat
        } else {
            0nat
        },
        occurrences(Seq::<i8>::empty(), s) == 0,
    decreases b.len(),
{
    assert(seq![x].drop_last() =~= Seq::<i8>::empty());
    assert(seq![x].last() == x);
    assert(occurrences(Seq::<i8>::empty(), s) == 0);
    assert(occurrences(seq![x], s) == occurrences(seq![x].drop_last(), s) + if seq![x].last() == s {
        1nat
    } else {
        0nat
    });
    if b.len() == 0 {
        assert(a + b =~= a);
    } else {
        lemma_occurrences_additive(a, b.drop_last(), x, s);
        assert((a + b).drop_last() =~= a + b.drop_last());
        assert((a + b).last() == b.last());
    }
}

/// The occurrences of -1, 0 and +1 in a sequence of those states add up to
/// its length.
pub proof fn lemma_occurrences_total(seq: Seq<i8>)
    requires
        all_ternary(seq),
    ensures
        occurrences(seq, -1i8) + occurrences(seq, 0i8) + occurrences(seq, 1i8) == seq.len(),
    decreases seq.len(),
{
    if seq.len() > 0 {
        let prev = seq.drop_last();
        assert forall|i: int| 0 <= i < prev.len() implies -1 <= #[trigger] prev[i] <= 1 by {
            assert(prev[i] == seq[i]);
        }
        assert(-1 <= seq[seq.len() - 1] <= 1);
        lemma_occurrences_total(prev);
    }
}

/// Pair counts add up over concatenation, plus the pair that straddles the
/// join; a sequence of two states holds that one pair, and a single state
/// holds none.
pub proof fn lemma_pair_count_additive(a: Seq<i8>, b: Seq<i8>, x: i8, y: i8, from: i8, to: i8)
    ensures
        pair_count(a + b, from, to) == pair_count(a, from, to) + pair_count(b, from, to) + if a.len()
            > 0 && b.len() > 0 && a.last() == from && b[0] == to {
            1nat
        } else {
            0nat
        },
        pair_count(seq![x, y], from, to) == if x == from && y == to {
            1nat
        } else {
            0nat
        },
        pair_count(seq![x], from, to) == 0,
    decreases b.len(),
{
    assert(seq![x, y].drop_last() =~= seq![x]);
    assert(pair_count(seq![x], from, to) == 0);
    assert(seq![x, y][0] == x && seq![x, y].last() == y);
    assert(pair_count(seq![x, y], from, to) == pair_count(seq![x, y].drop_last(), from, to) + if seq![
        x,
        y,
    ][0] == from && seq![x, y].last() == to {
        1nat
    } else {
        0nat
    });
    if b.len() == 0 {
        assert(a + b =~= a);
    } else {
        lemma_pair_count_additive(a, b.drop_last(), x, y, from, to);
        assert((a + b).drop_last() =~= a + b.drop_last());
        assert((a + b).last() == b.last());
        if b.len() == 1 {
            assert(b.drop_last() =~= Seq::<i8>::empty());
            assert(a + b.drop_last() =~= a);
            if a.len() > 0 {
                assert((a + b)[(a + b).len() - 2] == a.last());
            }
        } else {
            assert((a + b)[(a + b).len() - 2] == b[b.len() - 2]);
            assert(b.drop_last()[0] == b[0]);
        }
    }
}

/// What training on `seq` does to the counts `m`, giving `t`: a non-empty
/// sequence of states -1, 0, +1 adds one sequence, one first occurrence of its
/// first state, every occurrence of each state and every pair of neighbouring
/// states; so the state counts grow by the sequence's length in all. Any other
/// sequence leaves the counts as they were.
pub open spec fn trains_on(m: ModelView, seq: Seq<i8>, t: ModelView) -> bool {
    if seq.len() > 0 && all_ternary(seq) {
        &&& t.total_initial == m.total_initial + 1
        &&& t.initials[seq[0]] == m.initials[seq[0]] + 1
        &&& forall|s: i8| s != seq[0] ==> #[trigger] t.initials[s] == m.initials[s]
        &&& forall|s: i8| #[trigger] t.states[s] == m.states[s] + occurrences(seq, s)
        &&& forall|a: i8, b: i8| #[trigger] t.transitions[(a, b)] == m.transitions[(a, b)] + pair_count(seq, a, b)
        &&& t.states[-1i8] + t.states[0i8] + t.states[1i8] == m.states[-1i8] + m.states[0i8] + m.states[1i8]
            + seq.len()
    } else {
        t == m
    }
}

/// Training counts the sequence as `trains_on` says.
pub proof fn lemma_train_counts(m: ModelView, seq: Seq<i8>)
    ensures
        trains_on(m, seq, train_spec(m, seq)),
{
    if seq.len() > 0 && all_ternary(seq) {
        lemma_occurrences_total(seq);
    }
}

} // verus!
