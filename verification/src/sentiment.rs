use vstd::prelude::*;

verus! {

/// Ternary sentiment label: `Negative` (-1), `Neutral` (0), `Positive` (+1).
#[derive(Clone, Copy, PartialEq, Eq, Debug, Hash, Structural)]
pub enum Sentiment {
    Negative,
    Neutral,
    Positive,
}

impl Sentiment {
    /// The ternary value that the label stands for.
    pub open spec fn spec_value(self) -> int {
        match self {
            Sentiment::Negative => -1,
            Sentiment::Neutral => 0,
            Sentiment::Positive => 1,
        }
    }

    /// Whether `v` is one of the three ternary values.
    pub open spec fn is_ternary(v: int) -> bool {
        -1 <= v <= 1
    }

    /// The ternary value of the label (-1, 0 or +1).
    pub fn value(&self) -> (v: i8)
        ensures
            v == self.spec_value(),
    {
        match self {
            Sentiment::Negative => -1,
            Sentiment::Neutral => 0,
            Sentiment::Positive => 1,
        }
    }

    /// The label whose value is `v`, or `None` when `v` is not -1, 0 or +1.
    pub fn from_i8(v: i8) -> (r: Option<Self>)
        ensures
            r is Some <==> Self::is_ternary(v as int),
            r matches Some(s) ==> s.spec_value() == v,
    {
        match v {
            -1 => Some(Sentiment::Negative),
            0 => Some(Sentiment::Neutral),
            1 => Some(Sentiment::Positive),
            _ => None,
        }
    }
}

/// Every label is one of the three ternary values, and `from_i8` gives the
/// label back from its value.
pub proof fn lemma_sentiment_value_round_trip(s: Sentiment)
    ensures
        Sentiment::is_ternary(s.spec_value()),
        forall|t: Sentiment| t.spec_value() == s.spec_value() ==> t == s,
{
}

/// A token: its text and the sentiment given to it.
#[derive(Clone, PartialEq, Eq, Debug)]
pub struct TernaryToken {
    pub text: String,
    pub value: Sentiment,
}

/// What a token stands for: its characters and its sentiment.
pub struct TokenView {
    pub text: Seq<char>,
    pub value: Sentiment,
}

impl View for TernaryToken {
    type V = TokenView;

    open spec fn view(&self) -> TokenView {
        TokenView { text: self.text@, value: self.value }
    }
}

impl TernaryToken {
    /// A token with the given text and sentiment.
    pub fn new(text: &str, value: Sentiment) -> (r: Self)
        ensures
            r.text@ == text@,
            r.value == value,
    {
        TernaryToken { text: String::from_str(text), value }
    }
}

} // verus!
