use vstd::prelude::*;
use vstd::hash_map::StringHashMap;

use crate::grammar::join_words;
use crate::sentiment::{Sentiment, TernaryToken, TokenView};
use crate::text::{
    is_alphabetic, is_unicode_whitespace, push_char, spec_is_alphabetic, spec_is_whitespace,
    spec_to_lowercase, to_lowercase,
};

verus! {

broadcast use vstd::string::group_string_axioms;

/// The words of `s`: its maximal runs of non-whitespace characters, in order.
/// Defined by reading `s` left to right: whitespace ends a word, and a
/// non-whitespace character extends the word it follows or starts a new one.
pub open spec fn split_whitespace_spec(s: Seq<char>) -> Seq<Seq<char>>
    decreases s.len(),
{
    if s.len() == 0 {
        Seq::empty()
    } else {
        let prev = split_whitespace_spec(s.drop_last());
        let c = s.last();
        if spec_is_whitespace(c) {
            prev
        } else if s.len() > 1 && !spec_is_whitespace(s[s.len() - 2]) {
            prev.update(prev.len() - 1, prev.last().push(c))
        } else {
            prev.push(seq![c])
        }
    }
}

fn split_whitespace(text: &str) -> (r: Vec<String>)
    ensures
        r.deep_view() == split_whitespace_spec(text@),
{
    let mut words: Vec<String> = Vec::new();
    let mut cur = String::new();
    let mut in_word = false;
    for c in it: text.chars()
        invariant
            it.seq() == text@,
            in_word ==> words.deep_view().push(cur@) == split_whitespace_spec(text@.take(it.index())),
            !in_word ==> words.deep_view() == split_whitespace_spec(text@.take(it.index())),
            !in_word ==> cur@ == Seq::<char>::empty(),
            in_word <==> (it.index() > 0 && !spec_is_whitespace(text@[it.index() - 1])),
    {
        assert(text@.take(it.index() + 1).drop_last() =~= text@.take(it.index()));
        if is_unicode_whitespace(c) {
            if in_word {
                let w = cur;
                words.push(w);
                cur = String::new();
                in_word = false;
            }
        } else {
            push_char(&mut cur, c);
            in_word = true;
        }
    }
    assert(text@.take(text@.len() as int) =~= text@);
    if in_word {
        words.push(cur);
    }
    words
}


/// The letters of `w` (characters with the Unicode `Alphabetic` property), in
/// order.
pub open spec fn letters_of(w: Seq<char>) -> Seq<char> {
    w.filter(|c: char| spec_is_alphabetic(c))
}

/// The text of the token made from the word `w`: its letters, lowercased.
pub open spec fn clean_word(w: Seq<char>) -> Seq<char> {
    spec_to_lowercase(letters_of(w))
}

fn clean(word: &str) -> (r: String)
    ensures
        r@ == clean_word(word@),
{
    let mut letters = String::new();
    for c in it: word.chars()
        invariant
            it.seq() == word@,
            letters@ == letters_of(word@.take(it.index())),
    {
        proof {
            reveal(Seq::filter);
            assert(word@.take(it.index() + 1).drop_last() =~= word@.take(it.index()));
        }
        if is_alphabetic(c) {
            push_char(&mut letters, c);
        }
    }
    assert(word@.take(word@.len() as int) =~= word@);
    to_lowercase(letters.as_str())
}

/// The two word lists of a tokenizer.
pub struct Lexicon {
    pub positive: Set<Seq<char>>,
    pub negative: Set<Seq<char>>,
}

/// The sentiment a lexicon gives a word: positive words first, then negative
/// ones, and neutral for every other word.
pub open spec fn lexicon_sentiment(lex: Lexicon, w: Seq<char>) -> Sentiment {
    if lex.positive.contains(w) {
        Sentiment::Positive
    } else if lex.negative.contains(w) {
        Sentiment::Negative
    } else {
        Sentiment::Neutral
    }
}

/// The token made from the word `w`.
pub open spec fn token_of(lex: Lexicon, w: Seq<char>) -> TokenView {
    TokenView { text: clean_word(w), value: lexicon_sentiment(lex, clean_word(w)) }
}

/// The tokens of `text`: one per whitespace-separated word, in order.
pub open spec fn tokenize_spec(lex: Lexicon, text: Seq<char>) -> Seq<TokenView> {
    split_whitespace_spec(text).map_values(|w: Seq<char>| token_of(lex, w))
}

/// The lexicon after adding the word `w` (already lowercased) with a
/// sentiment: a positive or negative word joins that list; a neutral one
/// changes nothing.
pub open spec fn add_word_spec(lex: Lexicon, w: Seq<char>, sentiment: Sentiment) -> Lexicon {
    match sentiment {
        Sentiment::Positive => Lexicon { positive: lex.positive.insert(w), negative: lex.negative },
        Sentiment::Negative => Lexicon { positive: lex.positive, negative: lex.negative.insert(w) },
        Sentiment::Neutral => lex,
    }
}

/// The built-in positive words.
pub open spec fn default_positive_words() -> Set<Seq<char>> {
    set![
        "good"@, "great"@, "excellent"@, "happy"@, "love"@, "wonderful"@, "best"@, "amazing"@,
        "awesome"@, "fantastic"@,
    ]
}

/// The built-in negative words.
pub open spec fn default_negative_words() -> Set<Seq<char>> {
    set![
        "bad"@, "terrible"@, "awful"@, "sad"@, "hate"@, "worst"@, "horrible"@, "poor"@, "angry"@,
        "disappointing"@,
    ]
}

/// The lexicon a new tokenizer starts with.
pub open spec fn default_lexicon() -> Lexicon {
    Lexicon { positive: default_positive_words(), negative: default_negative_words() }
}

/// A tokenizer that splits text on whitespace and gives each token a sentiment
/// from its word lists.
pub struct TernaryTokenizer {
    positive_words: StringHashMap<Sentiment>,
    negative_words: StringHashMap<Sentiment>,
}

impl View for TernaryTokenizer {
    type V = Lexicon;

    closed spec fn view(&self) -> Lexicon {
        Lexicon { positive: self.positive_words@.dom(), negative: self.negative_words@.dom() }
    }
}

impl TernaryTokenizer {
    /// A tokenizer with the built-in positive and negative words.
    pub fn new() -> (r: Self)
        ensures
            r@ == default_lexicon(),
    {
        let mut pos: StringHashMap<Sentiment> = StringHashMap::new();
        let mut neg: StringHashMap<Sentiment> = StringHashMap::new();
        pos.insert(String::from_str("good"), Sentiment::Positive);
        pos.insert(String::from_str("great"), Sentiment::Positive);
        pos.insert(String::from_str("excellent"), Sentiment::Positive);
        pos.insert(String::from_str("happy"), Sentiment::Positive);
        pos.insert(String::from_str("love"), Sentiment::Positive);
        pos.insert(String::from_str("wonderful"), Sentiment::Positive);
        pos.insert(String::from_str("best"), Sentiment::Positive);
        pos.insert(String::from_str("amazing"), Sentiment::Positive);
        pos.insert(String::from_str("awesome"), Sentiment::Positive);
        pos.insert(String::from_str("fantastic"), Sentiment::Positive);
        neg.insert(String::from_str("bad"), Sentiment::Negative);
        neg.insert(String::from_str("terrible"), Sentiment::Negative);
        neg.insert(String::from_str("awful"), Sentiment::Negative);
        neg.insert(String::from_str("sad"), Sentiment::Negative);
        neg.insert(String::from_str("hate"), Sentiment::Negative);
        neg.insert(String::from_str("worst"), Sentiment::Negative);
        neg.insert(String::from_str("horrible"), Sentiment::Negative);
        neg.insert(String::from_str("poor"), Sentiment::Negative);
        neg.insert(String::from_str("angry"), Sentiment::Negative);
        neg.insert(String::from_str("disappointing"), Sentiment::Negative);
        let r = TernaryTokenizer { positive_words: pos, negative_words: neg };
        assert(r@.positive =~= default_positive_words());
        assert(r@.negative =~= default_negative_words());
        r
    }

    fn sentiment_of(&self, w: &str) -> (r: Sentiment)
        ensures
            r == lexicon_sentiment(self@, w@),
    {
        if self.positive_words.contains_key(w) {
            Sentiment::Positive
        } else if self.negative_words.contains_key(w) {
            Sentiment::Negative
        } else {
            Sentiment::Neutral
        }
    }

    /// Splits `text` on whitespace; each word becomes a token whose text is
    /// the word's letters, lowercased, and whose sentiment the word lists give
    /// that text.
    pub fn tokenize(&self, text: &str) -> (r: Vec<TernaryToken>)
        ensures
            r@.map_values(|t: TernaryToken| t@) == tokenize_spec(self@, text@),
    {
        let words = split_whitespace(text);
        let ghost ws = words.deep_view();
        let mut out: Vec<TernaryToken> = Vec::new();
        for i in 0..words.len()
            invariant
                ws == words.deep_view(),
                ws == split_whitespace_spec(text@),
                out@.map_values(|t: TernaryToken| t@) == ws.take(i as int).map_values(
                    |w: Seq<char>| token_of(self@, w),
                ),
        {
            let cleaned = clean(words[i].as_str());
            let value = self.sentiment_of(cleaned.as_str());
            let ghost before = out@.map_values(|t: TernaryToken| t@);
            out.push(TernaryToken { text: cleaned, value });
            assert(ws.take(i + 1) =~= ws.take(i as int).push(ws[i as int]));
            assert(out@.map_values(|t: TernaryToken| t@) =~= before.push(token_of(self@, ws[i as int])));
            assert(out@.map_values(|t: TernaryToken| t@) =~= ws.take(i + 1).map_values(
                |w: Seq<char>| token_of(self@, w),
            ));
        }
        assert(ws.take(words.len() as int) =~= ws);
        out
    }

    /// Adds `word`, lowercased, to the positive or negative words; a neutral
    /// sentiment leaves the tokenizer unchanged.
    pub fn add_word(&mut self, word: &str, sentiment: Sentiment)
        ensures
            final(self)@ == add_word_spec(old(self)@, spec_to_lowercase(word@), sentiment),
    {
        match sentiment {
            Sentiment::Positive => {
                self.positive_words.insert(to_lowercase(word), sentiment);
            },
            Sentiment::Negative => {
                self.negative_words.insert(to_lowercase(word), sentiment);
            },
            Sentiment::Neutral => {},
        }
    }
}


/// Adding a word changes the sentiment of that word alone: a word added as
/// positive is then positive; one added as negative is then negative unless it
/// is also a positive word; a neutral addition changes nothing.
pub proof fn lemma_add_word_sentiment(lex: Lexicon, w: Seq<char>, sentiment: Sentiment, u: Seq<char>)
    ensures
        sentiment == Sentiment::Positive ==> lexicon_sentiment(add_word_spec(lex, w, sentiment), w)
            == Sentiment::Positive,
        sentiment == Sentiment::Negative ==> lexicon_sentiment(add_word_spec(lex, w, sentiment), w)
            == (if lex.positive.contains(w) {
            Sentiment::Positive
        } else {
            Sentiment::Negative
        }),
        sentiment == Sentiment::Neutral ==> add_word_spec(lex, w, sentiment) == lex,
        u != w ==> lexicon_sentiment(add_word_spec(lex, w, sentiment), u) == lexicon_sentiment(lex, u),
{
}

/// After a word is added as positive, every token of any text whose text is
/// that word (lowercased) is positive.
pub proof fn lemma_added_positive_word_is_positive(lex: Lexicon, word: Seq<char>, text: Seq<char>)
    ensures
        forall|i: int|
            0 <= i < tokenize_spec(add_word_spec(lex, spec_to_lowercase(word), Sentiment::Positive), text).len()
                && (#[trigger] tokenize_spec(add_word_spec(lex, spec_to_lowercase(word), Sentiment::Positive), text)[i]).text
                == spec_to_lowercase(word) ==> tokenize_spec(
                add_word_spec(lex, spec_to_lowercase(word), Sentiment::Positive),
                text,
            )[i].value == Sentiment::Positive,
{
}

/// The words of a text are non-empty and hold no whitespace.
pub proof fn lemma_words_are_nonempty_runs(s: Seq<char>)
    ensures
        forall|i: int| 0 <= i < split_whitespace_spec(s).len() ==> (#[trigger] split_whitespace_spec(s)[i]).len() > 0,
        forall|i: int, j: int|
            0 <= i < split_whitespace_spec(s).len() && 0 <= j < split_whitespace_spec(s)[i].len()
                ==> !spec_is_whitespace(#[trigger] split_whitespace_spec(s)[i][j]),
        s.len() > 0 && !spec_is_whitespace(s.last()) ==> split_whitespace_spec(s).len() > 0,
    decreases s.len(),
{
    if s.len() > 0 {
        let prev = split_whitespace_spec(s.drop_last());
        lemma_words_are_nonempty_runs(s.drop_last());
        let c = s.last();
        if !spec_is_whitespace(c) && s.len() > 1 && !spec_is_whitespace(s[s.len() - 2]) {
            assert(s.drop_last().last() == s[s.len() - 2]);
            let cur = split_whitespace_spec(s);
            assert forall|i: int, j: int|
                0 <= i < cur.len() && 0 <= j < cur[i].len() implies !spec_is_whitespace(#[trigger] cur[i][j]) by {
                if i == cur.len() - 1 && j == cur[i].len() - 1 {
                    assert(cur[i][j] == c);
                } else if i == cur.len() - 1 {
                    assert(cur[i][j] == prev[i][j]);
                }
            }
        }
    }
}


/// Taking the letters of a word keeps exactly its alphabetic characters, in
/// order: it distributes over concatenation, keeps a single alphabetic
/// character and drops a single other one.
pub proof fn lemma_letters_of_keeps_alphabetic(a: Seq<char>, b: Seq<char>, c: char)
    ensures
        letters_of(a + b) == letters_of(a) + letters_of(b),
        letters_of(seq![c]) == if spec_is_alphabetic(c) {
            seq![c]
        } else {
            Seq::<char>::empty()
        },
        letters_of(Seq::<char>::empty()) == Seq::<char>::empty(),
        forall|i: int| 0 <= i < letters_of(a).len() ==> spec_is_alphabetic(#[trigger] letters_of(a)[i]),
{
    reveal(Seq::filter);
    Seq::filter_distributes_over_add(a, b, |c: char| spec_is_alphabetic(c));
    let pred = |c: char| spec_is_alphabetic(c);
    assert(seq![c].drop_last() =~= Seq::<char>::empty());
    assert(Seq::<char>::empty().filter(pred) =~= Seq::<char>::empty());
    assert(seq![c].last() == c);
    assert(seq![c].filter(pred) =~= (if spec_is_alphabetic(c) {
        seq![c]
    } else {
        Seq::<char>::empty()
    }));
    assert forall|i: int| 0 <= i < letters_of(a).len() implies spec_is_alphabetic(#[trigger] letters_of(a)[i]) by {
        a.lemma_filter_pred(|c: char| spec_is_alphabetic(c), i);
    }
}


/// Text after a whitespace character splits on its own: when `s` is empty or
/// ends in whitespace, the words of `s + t` are the words of `s` followed by
/// the words of `t`.
proof fn lemma_split_after_whitespace(s: Seq<char>, t: Seq<char>)
    requires
        s.len() == 0 || spec_is_whitespace(s.last()),
    ensures
        split_whitespace_spec(s + t) == split_whitespace_spec(s) + split_whitespace_spec(t),
    decreases t.len(),
{
    if t.len() == 0 {
        assert(s + t =~= s);
        assert(split_whitespace_spec(s) + Seq::<Seq<char>>::empty() =~= split_whitespace_spec(s));
    } else {
        let t0 = t.drop_last();
        let c = t.last();
        lemma_split_after_whitespace(s, t0);
        assert((s + t).drop_last() =~= s + t0);
        assert((s + t).last() == c);
        let a = split_whitespace_spec(s);
        let b0 = split_whitespace_spec(t0);
        if !spec_is_whitespace(c) {
            if t0.len() > 0 {
                assert((s + t)[(s + t).len() - 2] == t0.last());
                assert(t[t.len() - 2] == t0.last());
                if !spec_is_whitespace(t0.last()) {
                    lemma_words_are_nonempty_runs(t0);
                    assert(b0.len() > 0);
                    assert((a + b0).update((a + b0).len() - 1, (a + b0).last().push(c)) =~= a + b0.update(
                        b0.len() - 1,
                        b0.last().push(c),
                    ));
                } else {
                    assert((a + b0).push(seq![c]) =~= a + b0.push(seq![c]));
                }
            } else {
                assert(t0 =~= Seq::<char>::empty());
                assert(b0 == Seq::<Seq<char>>::empty());
                if s.len() > 0 {
                    assert((s + t)[(s + t).len() - 2] == s.last());
                }
                assert((a + b0).push(seq![c]) =~= a + b0.push(seq![c]));
            }
        }
    }
}

/// Whitespace separates words: the words of `a`, a whitespace character and
/// `b` are the words of `a` followed by the words of `b`; and a non-empty text
/// without whitespace is a single word.
pub proof fn lemma_split_whitespace_laws(a: Seq<char>, c: char, b: Seq<char>, w: Seq<char>)
    ensures
        spec_is_whitespace(c) ==> split_whitespace_spec(a + seq![c] + b) == split_whitespace_spec(a)
            + split_whitespace_spec(b),
        w.len() > 0 && (forall|i: int| 0 <= i < w.len() ==> !spec_is_whitespace(#[trigger] w[i]))
            ==> split_whitespace_spec(w) == seq![w],
{
    if spec_is_whitespace(c) {
        let ac = a + seq![c];
        assert(ac.drop_last() =~= a);
        assert(ac.last() == c);
        lemma_split_after_whitespace(ac, b);
    }
    if w.len() > 0 && (forall|i: int| 0 <= i < w.len() ==> !spec_is_whitespace(#[trigger] w[i])) {
        lemma_split_single_word(w);
    }
}

proof fn lemma_split_single_word(w: Seq<char>)
    requires
        w.len() > 0,
        forall|i: int| 0 <= i < w.len() ==> !spec_is_whitespace(#[trigger] w[i]),
    ensures
        split_whitespace_spec(w) == seq![w],
    decreases w.len(),
{
    let w0 = w.drop_last();
    assert(!spec_is_whitespace(w[w.len() - 1]));
    if w.len() == 1 {
        assert(w0 =~= Seq::<char>::empty());
        assert(split_whitespace_spec(w0) == Seq::<Seq<char>>::empty());
        assert(seq![w.last()] =~= w);
        assert(Seq::<Seq<char>>::empty().push(seq![w.last()]) =~= seq![w]);
    } else {
        assert forall|i: int| 0 <= i < w0.len() implies !spec_is_whitespace(#[trigger] w0[i]) by {
            assert(w0[i] == w[i]);
        }
        lemma_split_single_word(w0);
        assert(!spec_is_whitespace(w[w.len() - 2]));
        assert(w0.push(w.last()) =~= w);
        assert(seq![w0].last() == w0);
        assert(seq![w0].update(0, w0.push(w.last())) =~= seq![w]);
    }
}

/// Tokens follow the words: text, a whitespace character and more text
/// tokenize into the tokens of the first text followed by those of the
/// second, and a non-empty text without whitespace is one token.
pub proof fn lemma_tokenize_concat(lex: Lexicon, a: Seq<char>, c: char, b: Seq<char>, w: Seq<char>)
    ensures
        spec_is_whitespace(c) ==> tokenize_spec(lex, a + seq![c] + b) == tokenize_spec(lex, a) + tokenize_spec(
            lex,
            b,
        ),
        w.len() > 0 && (forall|i: int| 0 <= i < w.len() ==> !spec_is_whitespace(#[trigger] w[i]))
            ==> tokenize_spec(lex, w) == seq![token_of(lex, w)],
{
    lemma_split_whitespace_laws(a, c, b, w);
    if spec_is_whitespace(c) {
        let f = |x: Seq<char>| token_of(lex, x);
        let sa = split_whitespace_spec(a);
        let sb = split_whitespace_spec(b);
        assert((sa + sb).map_values(f) =~= sa.map_values(f) + sb.map_values(f));
    }
    if w.len() > 0 && (forall|i: int| 0 <= i < w.len() ==> !spec_is_whitespace(#[trigger] w[i])) {
        assert(seq![w].map_values(|x: Seq<char>| token_of(lex, x)) =~= seq![token_of(lex, w)]);
    }
}


/// Joining partial strings puts whitespace between them: the words of a
/// joined string are the words of its two parts, one after the other.
pub proof fn lemma_join_words_separates(p: Seq<char>, e: Seq<char>)
    ensures
        split_whitespace_spec(join_words(p, e)) == split_whitespace_spec(p) + split_whitespace_spec(e),
{
    if p.len() == 0 {
        assert(split_whitespace_spec(p) == Seq::<Seq<char>>::empty());
        assert(Seq::<Seq<char>>::empty() + split_whitespace_spec(e) =~= split_whitespace_spec(e));
    } else {
        assert(spec_is_whitespace(' '));
        lemma_split_whitespace_laws(p, ' ', e, e);
    }
}

} // verus!
