use vstd::prelude::*;

use crate::sentiment::{Sentiment, TernaryToken, TokenView};
use crate::tokenizer::{default_lexicon, tokenize_spec, Lexicon, TernaryTokenizer};

verus! {

/// The sum of the tokens' values (+1, 0, -1).
pub open spec fn score(ts: Seq<TokenView>) -> int
    decreases ts.len(),
{
    if ts.len() == 0 {
        0
    } else {
        score(ts.drop_last()) + ts.last().value.spec_value()
    }
}

/// The label of a score: positive above zero, negative below, neutral at zero.
pub open spec fn sentiment_of_score(s: int) -> Sentiment {
    if s > 0 {
        Sentiment::Positive
    } else if s < 0 {
        Sentiment::Negative
    } else {
        Sentiment::Neutral
    }
}

/// The absolute value of an integer.
pub open spec fn abs(s: int) -> int {
    if s < 0 {
        -s
    } else {
        s
    }
}

/// The score of a text under a lexicon.
pub open spec fn text_score(lex: Lexicon, text: Seq<char>) -> int {
    score(tokenize_spec(lex, text))
}

/// A classifier that sums the sentiment of a text's tokens.
pub struct SentimentClassifier {
    tokenizer: TernaryTokenizer,
}

impl View for SentimentClassifier {
    type V = Lexicon;

    closed spec fn view(&self) -> Lexicon {
        self.tokenizer@
    }
}

/// A score is at most the number of tokens in magnitude.
proof fn lemma_score_bounds(ts: Seq<TokenView>)
    ensures
        abs(score(ts)) <= ts.len(),
    decreases ts.len(),
{
    if ts.len() > 0 {
        lemma_score_bounds(ts.drop_last());
    }
}

impl SentimentClassifier {
    /// A classifier over the built-in word lists.
    pub fn new() -> (r: Self)
        ensures
            r@ == default_lexicon(),
    {
        SentimentClassifier { tokenizer: TernaryTokenizer::new() }
    }

    /// A classifier over the word lists of `tokenizer`.
    pub fn with_tokenizer(tokenizer: TernaryTokenizer) -> (r: Self)
        ensures
            r@ == tokenizer@,
    {
        SentimentClassifier { tokenizer }
    }

    /// Counts the positive and the negative tokens of `text`, and the tokens.
    fn count(&self, text: &str) -> (r: (usize, usize, usize))
        ensures
            r.0 as int - r.1 as int == text_score(self@, text@),
            r.2 == tokenize_spec(self@, text@).len(),
    {
        let tokens = self.tokenizer.tokenize(text);
        let ghost ts = tokens@.map_values(|t: TernaryToken| t@);
        let mut pos: usize = 0;
        let mut neg: usize = 0;
        for i in 0..tokens.len()
            invariant
                ts == tokens@.map_values(|t: TernaryToken| t@),
                pos + neg <= i,
                pos - neg == score(ts.take(i as int)),
        {
            assert(ts.take(i + 1).drop_last() =~= ts.take(i as int));
            match tokens[i].value {
                Sentiment::Positive => pos = pos + 1,
                Sentiment::Negative => neg = neg + 1,
                Sentiment::Neutral => {},
            }
        }
        assert(ts.take(tokens.len() as int) =~= ts);
        (pos, neg, tokens.len())
    }

    /// The label of `text`: the sign of the sum of its tokens' values.
    pub fn classify(&self, text: &str) -> (r: Sentiment)
        ensures
            r == sentiment_of_score(text_score(self@, text@)),
    {
        let (pos, neg, _) = self.count(text);
        if pos > neg {
            Sentiment::Positive
        } else if pos < neg {
            Sentiment::Negative
        } else {
            Sentiment::Neutral
        }
    }

    /// The label of `text`, the magnitude of its score and its number of
    /// tokens; the confidence of the label is the magnitude over the number of
    /// tokens (zero for a text with no tokens). The magnitude never exceeds the
    /// number of tokens, and is zero exactly when the label is neutral.
    pub fn classify_with_score(&self, text: &str) -> (r: (Sentiment, usize, usize))
        ensures
            r.0 == sentiment_of_score(text_score(self@, text@)),
            r.1 == abs(text_score(self@, text@)),
            r.2 == tokenize_spec(self@, text@).len(),
            r.1 <= r.2,
            (r.1 == 0) == (r.0 == Sentiment::Neutral),
    {
        let (pos, neg, n) = self.count(text);
        proof {
            lemma_score_bounds(tokenize_spec(self@, text@));
        }
        if pos > neg {
            (Sentiment::Positive, pos - neg, n)
        } else if pos < neg {
            (Sentiment::Negative, neg - pos, n)
        } else {
            (Sentiment::Neutral, 0, n)
        }
    }
}


/// The number of tokens of `ts` with sentiment `v`.
pub open spec fn count_with(ts: Seq<TokenView>, v: Sentiment) -> nat {
    ts.filter(|t: TokenView| t.value == v).len()
}

/// Scores add up over concatenation, and a single token scores its own
/// value: the score of a token list is the sum of all its tokens' values.
pub proof fn lemma_score_additive(a: Seq<TokenView>, b: Seq<TokenView>, t: TokenView)
    ensures
        score(a + b) == score(a) + score(b),
        score(seq![t]) == t.value.spec_value(),
        score(Seq::<TokenView>::empty()) == 0,
    decreases b.len(),
{
    assert(seq![t].drop_last() =~= Seq::<TokenView>::empty());
    assert(score(Seq::<TokenView>::empty()) == 0);
    assert(seq![t].last() == t);
    assert(score(seq![t]) == score(seq![t].drop_last()) + seq![t].last().value.spec_value());
    if b.len() == 0 {
        assert(a + b =~= a);
    } else {
        lemma_score_additive(a, b.drop_last(), t);
        assert((a + b).drop_last() =~= a + b.drop_last());
        assert((a + b).last() == b.last());
    }
}

/// The score of a token list is its number of positive tokens minus its
/// number of negative tokens.
pub proof fn lemma_score_counts(ts: Seq<TokenView>)
    ensures
        score(ts) == count_with(ts, Sentiment::Positive) as int - count_with(ts, Sentiment::Negative) as int,
    decreases ts.len(),
{
    reveal(Seq::filter);
    if ts.len() > 0 {
        lemma_score_counts(ts.drop_last());
    }
}

} // verus!
