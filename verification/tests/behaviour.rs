use ternary_language::{
    ParseNode, ProductionRule, Sentiment, SentimentClassifier, TernaryGrammar,
    TernaryLanguageModel, TernaryParser, TernarySymbol, TernaryToken, TernaryTokenizer,
};

fn nt(name: &str) -> TernarySymbol {
    TernarySymbol::NonTerminal(name.to_string())
}

fn t(word: &str) -> TernarySymbol {
    TernarySymbol::Terminal(word.to_string())
}

fn words(ws: &[&str]) -> Vec<String> {
    ws.iter().map(|w| w.to_string()).collect()
}

#[test]
fn sentiment_values_round_trip() {
    for s in [Sentiment::Negative, Sentiment::Neutral, Sentiment::Positive] {
        assert_eq!(Sentiment::from_i8(s.value()), Some(s));
    }
    assert_eq!(Sentiment::Negative.value(), -1);
    assert_eq!(Sentiment::Neutral.value(), 0);
    assert_eq!(Sentiment::Positive.value(), 1);
    for v in i8::MIN..=i8::MAX {
        let r = Sentiment::from_i8(v);
        assert_eq!(r.is_some(), (-1..=1).contains(&v));
    }
}

#[test]
fn token_new_keeps_text_and_value() {
    let tok = TernaryToken::new("hello", Sentiment::Positive);
    assert_eq!(tok.text, "hello");
    assert_eq!(tok.value, Sentiment::Positive);
}

#[test]
fn tokenizer_strips_punctuation_and_lowercases() {
    let tok = TernaryTokenizer::new();
    let tokens = tok.tokenize("GREAT!!! day, Bad.");
    let texts: Vec<&str> = tokens.iter().map(|t| t.text.as_str()).collect();
    assert_eq!(texts, vec!["great", "day", "bad"]);
    let values: Vec<Sentiment> = tokens.iter().map(|t| t.value).collect();
    assert_eq!(values, vec![Sentiment::Positive, Sentiment::Neutral, Sentiment::Negative]);
}

#[test]
fn tokenizer_splits_on_any_whitespace() {
    let tok = TernaryTokenizer::new();
    let tokens = tok.tokenize("  good\tbad\n\nhappy  ");
    let texts: Vec<&str> = tokens.iter().map(|t| t.text.as_str()).collect();
    assert_eq!(texts, vec!["good", "bad", "happy"]);
}

#[test]
fn tokenizer_keeps_words_without_letters() {
    let tok = TernaryTokenizer::new();
    let tokens = tok.tokenize("hello 123 !!! w0rld");
    let texts: Vec<&str> = tokens.iter().map(|t| t.text.as_str()).collect();
    assert_eq!(texts, vec!["hello", "", "", "wrld"]);
    assert!(tokens.iter().all(|t| t.value == Sentiment::Neutral));
}

#[test]
fn tokenizer_empty_text_has_no_tokens() {
    let tok = TernaryTokenizer::new();
    assert!(tok.tokenize("").is_empty());
    assert!(tok.tokenize(" \t\n ").is_empty());
}

#[test]
fn add_word_is_lowercased() {
    let mut tok = TernaryTokenizer::new();
    tok.add_word("RAD", Sentiment::Positive);
    let tokens = tok.tokenize("Rad rad RAD");
    assert!(tokens.iter().all(|t| t.text == "rad" && t.value == Sentiment::Positive));
}

#[test]
fn add_word_negative_and_neutral() {
    let mut tok = TernaryTokenizer::new();
    tok.add_word("meh", Sentiment::Neutral);
    tok.add_word("ugh", Sentiment::Negative);
    tok.add_word("good", Sentiment::Negative);
    let tokens = tok.tokenize("meh ugh good");
    let values: Vec<Sentiment> = tokens.iter().map(|t| t.value).collect();
    assert_eq!(values, vec![Sentiment::Neutral, Sentiment::Negative, Sentiment::Positive]);
}

#[test]
fn classifier_with_custom_tokenizer() {
    let mut tok = TernaryTokenizer::new();
    tok.add_word("meh", Sentiment::Negative);
    let cls = SentimentClassifier::with_tokenizer(tok);
    assert_eq!(cls.classify("meh"), Sentiment::Negative);
    assert_eq!(SentimentClassifier::new().classify("meh"), Sentiment::Neutral);
}

#[test]
fn classifier_score_counts() {
    let cls = SentimentClassifier::new();
    assert_eq!(cls.classify_with_score("great bad bad"), (Sentiment::Negative, 1, 3));
    assert_eq!(cls.classify_with_score("good bad"), (Sentiment::Neutral, 0, 2));
    assert_eq!(cls.classify_with_score("love love day"), (Sentiment::Positive, 2, 3));
    assert_eq!(cls.classify_with_score(""), (Sentiment::Neutral, 0, 0));
    assert_eq!(cls.classify(""), Sentiment::Neutral);
}

#[test]
fn grammar_rules_for_keeps_order() {
    let mut g = TernaryGrammar::new(nt("S"));
    g.add_rule(ProductionRule::new(nt("S"), vec![t("a")]));
    g.add_rule(ProductionRule::new(nt("A"), vec![t("x")]));
    g.add_rule(ProductionRule::new(nt("S"), vec![t("b")]));
    let rs = g.rules_for(&nt("S"));
    assert_eq!(rs.len(), 2);
    assert_eq!(rs[0].rhs, vec![t("a")]);
    assert_eq!(rs[1].rhs, vec![t("b")]);
    assert!(g.rules_for(&nt("B")).is_empty());
    assert_eq!(g.start(), &nt("S"));
    assert_eq!(g.rules().len(), 3);
}

#[test]
fn grammar_generate_combinations() {
    let mut g = TernaryGrammar::new(nt("S"));
    g.add_rule(ProductionRule::new(nt("S"), vec![nt("A"), nt("B")]));
    g.add_rule(ProductionRule::new(nt("A"), vec![t("x")]));
    g.add_rule(ProductionRule::new(nt("A"), vec![t("y")]));
    g.add_rule(ProductionRule::new(nt("B"), vec![t("z"), TernarySymbol::Ternary(-1)]));
    assert_eq!(g.generate(3), words(&["x z T(-1)", "y z T(-1)"]));
    assert_eq!(g.generate(1), Vec::<String>::new());
    assert_eq!(g.generate(0), Vec::<String>::new());
}

#[test]
fn grammar_generate_leaves() {
    let g = TernaryGrammar::new(t("word"));
    assert_eq!(g.generate(0), words(&["word"]));
    assert_eq!(g.generate(5), words(&["word"]));
    let g = TernaryGrammar::new(TernarySymbol::Ternary(-128));
    assert_eq!(g.generate(1), words(&["T(-128)"]));
    let g = TernaryGrammar::new(TernarySymbol::Ternary(0));
    assert_eq!(g.generate(1), words(&["T(0)"]));
    let g = TernaryGrammar::new(TernarySymbol::Ternary(127));
    assert_eq!(g.generate(1), words(&["T(127)"]));
}

#[test]
fn grammar_empty_rule_generates_empty_string() {
    let mut g = TernaryGrammar::new(nt("S"));
    g.add_rule(ProductionRule::new(nt("S"), vec![]));
    assert_eq!(g.generate(1), words(&[""]));
}

#[test]
fn parser_tries_rules_in_order() {
    let mut g = TernaryGrammar::new(nt("S"));
    g.add_rule(ProductionRule::new(nt("S"), vec![t("a"), t("b")]));
    g.add_rule(ProductionRule::new(nt("S"), vec![t("a")]));
    let parser = TernaryParser::new(g);
    let tree = parser.parse(&words(&["a"])).unwrap();
    assert_eq!(tree.terminals(), vec!["a"]);
    assert_eq!(tree.symbol, nt("S"));
    assert_eq!(tree.children.len(), 1);
}

#[test]
fn parser_first_match_does_not_backtrack_into_longer_rules() {
    let mut g = TernaryGrammar::new(nt("S"));
    g.add_rule(ProductionRule::new(nt("S"), vec![t("a")]));
    g.add_rule(ProductionRule::new(nt("S"), vec![t("a"), t("b")]));
    let parser = TernaryParser::new(g);
    assert!(parser.parse(&words(&["a", "b"])).is_none());
}

#[test]
fn parser_ternary_symbols_and_nesting() {
    let mut g = TernaryGrammar::new(nt("S"));
    g.add_rule(ProductionRule::new(nt("S"), vec![nt("A"), TernarySymbol::Ternary(1)]));
    g.add_rule(ProductionRule::new(nt("A"), vec![t("x"), t("y")]));
    let parser = TernaryParser::new(g);
    let tree = parser.parse(&words(&["x", "y", "T(1)"])).unwrap();
    assert_eq!(tree.terminals(), vec!["x", "y", "T(1)"]);
    assert_eq!(tree.children[0].symbol, nt("A"));
    assert_eq!(tree.children[1].symbol, t("T(1)"));
    assert!(parser.parse(&words(&["x", "y", "T(-1)"])).is_none());
    assert!(parser.parse(&words(&["x", "y"])).is_none());
}

#[test]
fn parser_empty_input() {
    let mut g = TernaryGrammar::new(nt("S"));
    g.add_rule(ProductionRule::new(nt("S"), vec![]));
    let parser = TernaryParser::new(g);
    let tree = parser.parse(&[]).unwrap();
    assert!(tree.is_leaf());
    assert!(tree.terminals().is_empty());
}

#[test]
fn parse_node_duplicate_and_leaves() {
    let node = ParseNode::non_terminal("S", vec![
        ParseNode::terminal("a"),
        ParseNode::non_terminal("E", vec![]),
        ParseNode {
            symbol: TernarySymbol::Ternary(-1),
            children: vec![],
        },
    ]);
    let copy = node.duplicate();
    assert_eq!(copy, node);
    assert_eq!(node.terminals(), vec!["a", "T(-1)"]);
}

#[test]
fn language_model_counts() {
    let mut lm = TernaryLanguageModel::new();
    lm.train(&[1, 0, -1]);
    lm.train(&[1, 0, 0]);
    assert_eq!(lm.total_initial(), 2);
    assert_eq!(lm.initial_count(1), 2);
    assert_eq!(lm.initial_count(0), 0);
    assert_eq!(lm.state_count(0), 3);
    assert_eq!(lm.state_count(1), 2);
    assert_eq!(lm.state_count(-1), 1);
    assert_eq!(lm.transition_count(1, 0), 2);
    assert_eq!(lm.transition_count(0, -1), 1);
    assert_eq!(lm.transition_count(0, 0), 1);
    assert_eq!(lm.transition_count(-1, 1), 0);
}

#[test]
fn language_model_ignores_invalid_and_empty_sequences() {
    let mut lm = TernaryLanguageModel::new();
    lm.train(&[]);
    lm.train(&[1, 2, 0]);
    assert_eq!(lm.total_initial(), 0);
    assert_eq!(lm.state_count(1), 0);
    assert_eq!(lm.transition_count(1, 2), 0);
}

#[test]
fn language_model_most_likely_next() {
    let mut lm = TernaryLanguageModel::new();
    assert_eq!(lm.most_likely_next(1), -1);
    lm.train(&[0, 1, 0, 0]);
    assert_eq!(lm.most_likely_next(0), 0);
    assert_eq!(lm.most_likely_next(1), 0);
    assert_eq!(lm.most_likely_next(5), -1);
    lm.train(&[0, 1]);
    // From 0: to 1 twice, to 0 once.
    assert_eq!(lm.most_likely_next(0), 1);
    // A state seen only at the end of sequences: every count is zero.
    let mut lm = TernaryLanguageModel::new();
    lm.train(&[0, -1]);
    assert_eq!(lm.most_likely_next(-1), -1);
    // Ties go to the earliest of -1, 0, +1.
    let mut lm = TernaryLanguageModel::new();
    lm.train(&[1, 0, 1, 1]);
    assert_eq!(lm.most_likely_next(1), 0);
}

#[test]
fn language_model_counts_stay_consistent() {
    let mut lm = TernaryLanguageModel::new();
    lm.train(&[1, 1, 0, -1]);
    lm.train(&[1, 1, 1, 0]);
    lm.train(&[-1]);
    let firsts: usize = [-1i8, 0, 1].iter().map(|s| lm.initial_count(*s)).sum();
    assert_eq!(firsts, lm.total_initial());
    for a in [-1i8, 0, 1] {
        let out: usize = [-1i8, 0, 1].iter().map(|b| lm.transition_count(a, *b)).sum();
        assert!(out <= lm.state_count(a));
    }
}

#[test]
fn whitespace_matches_std_on_every_char() {
    for u in 0..=0x10FFFFu32 {
        if let Some(c) = char::from_u32(u) {
            assert_eq!(ternary_language::is_unicode_whitespace(c), c.is_whitespace(), "U+{:04X}", u);
        }
    }
}

#[test]
fn tokenizer_splits_on_unicode_spaces() {
    let tok = TernaryTokenizer::new();
    let tokens = tok.tokenize("good\u{3000}bad\u{2003}happy\u{a0}sad");
    let texts: Vec<&str> = tokens.iter().map(|t| t.text.as_str()).collect();
    assert_eq!(texts, vec!["good", "bad", "happy", "sad"]);
}

#[test]
fn language_model_training_order_does_not_matter() {
    let mut m1 = TernaryLanguageModel::new();
    let mut m2 = TernaryLanguageModel::new();
    let a: [i8; 4] = [1, 1, 0, -1];
    let b: [i8; 3] = [0, -1, -1];
    m1.train(&a);
    m1.train(&b);
    m2.train(&b);
    m2.train(&a);
    assert_eq!(m1.total_initial(), m2.total_initial());
    for x in [-1i8, 0, 1] {
        assert_eq!(m1.initial_count(x), m2.initial_count(x));
        assert_eq!(m1.state_count(x), m2.state_count(x));
        assert_eq!(m1.most_likely_next(x), m2.most_likely_next(x));
        for y in [-1i8, 0, 1] {
            assert_eq!(m1.transition_count(x, y), m2.transition_count(x, y));
        }
    }
}

#[test]
fn grammar_deeper_bound_keeps_strings() {
    let mut g = TernaryGrammar::new(nt("S"));
    g.add_rule(ProductionRule::new(nt("S"), vec![t("a")]));
    g.add_rule(ProductionRule::new(nt("S"), vec![t("b"), nt("S")]));
    for d in 0..5 {
        let shallow = g.generate(d);
        let deep = g.generate(d + 1);
        assert!(shallow.iter().all(|s| deep.contains(s)));
    }
    assert_eq!(g.generate(2), words(&["a", "b a"]));
    assert_eq!(g.generate(3), words(&["a", "b a", "b b a"]));
}

#[test]
fn parser_right_recursive_grammar() {
    let mut g = TernaryGrammar::new(nt("S"));
    g.add_rule(ProductionRule::new(nt("S"), vec![t("b"), nt("S")]));
    g.add_rule(ProductionRule::new(nt("S"), vec![t("a")]));
    let parser = TernaryParser::new(g);
    let tree = parser.parse(&words(&["b", "b", "a"])).unwrap();
    assert_eq!(tree.terminals(), vec!["b", "b", "a"]);
    assert!(parser.parse(&words(&["b", "b"])).is_none());
}
