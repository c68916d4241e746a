use ternary_language::{
    ParseNode, ProductionRule, Sentiment, SentimentClassifier, TernaryGrammar,
    TernaryLanguageModel, TernaryParser, TernarySymbol, TernaryTokenizer,
};

fn transition_prob(lm: &TernaryLanguageModel, from: i8, to: i8) -> f64 {
    let from_count = lm.state_count(from);
    if from_count == 0 {
        return 1.0 / 3.0;
    }
    lm.transition_count(from, to) as f64 / from_count as f64
}

fn initial_prob(lm: &TernaryLanguageModel, state: i8) -> f64 {
    if lm.total_initial() == 0 {
        return 1.0 / 3.0;
    }
    lm.initial_count(state) as f64 / lm.total_initial() as f64
}

fn sequence_log_prob(lm: &TernaryLanguageModel, sequence: &[i8]) -> f64 {
    if sequence.is_empty() {
        return 0.0;
    }
    let mut lp = initial_prob(lm, sequence[0]).ln();
    for window in sequence.windows(2) {
        lp += transition_prob(lm, window[0], window[1]).ln();
    }
    lp
}

fn classify_with_confidence(cls: &SentimentClassifier, text: &str) -> (Sentiment, f64) {
    let (sent, magnitude, count) = cls.classify_with_score(text);
    if count == 0 {
        return (Sentiment::Neutral, 0.0);
    }
    (sent, magnitude as f64 / count as f64)
}

#[test]
fn test_sentiment_from_i8() {
    assert_eq!(Sentiment::from_i8(-1), Some(Sentiment::Negative));
    assert_eq!(Sentiment::from_i8(0), Some(Sentiment::Neutral));
    assert_eq!(Sentiment::from_i8(1), Some(Sentiment::Positive));
    assert_eq!(Sentiment::from_i8(5), None);
}

#[test]
fn test_tokenizer_positive() {
    let tok = TernaryTokenizer::new();
    let tokens = tok.tokenize("I love this great day");
    let pos_count = tokens.iter().filter(|t| t.value == Sentiment::Positive).count();
    assert!(pos_count >= 2);
}

#[test]
fn test_tokenizer_negative() {
    let tok = TernaryTokenizer::new();
    let tokens = tok.tokenize("This is terrible and awful");
    let neg_count = tokens.iter().filter(|t| t.value == Sentiment::Negative).count();
    assert!(neg_count >= 2);
}

#[test]
fn test_tokenizer_neutral() {
    let tok = TernaryTokenizer::new();
    let tokens = tok.tokenize("the cat sat on the mat");
    assert!(tokens.iter().all(|t| t.value == Sentiment::Neutral));
}

#[test]
fn test_tokenizer_custom_word() {
    let mut tok = TernaryTokenizer::new();
    tok.add_word("rad", Sentiment::Positive);
    let tokens = tok.tokenize("that was rad");
    assert!(tokens.iter().any(|t| t.text == "rad" && t.value == Sentiment::Positive));
}

#[test]
fn test_classifier_positive_text() {
    let cls = SentimentClassifier::new();
    assert_eq!(cls.classify("I love this amazing wonderful day"), Sentiment::Positive);
}

#[test]
fn test_classifier_negative_text() {
    let cls = SentimentClassifier::new();
    assert_eq!(cls.classify("I hate this terrible awful day"), Sentiment::Negative);
}

#[test]
fn test_classifier_neutral_text() {
    let cls = SentimentClassifier::new();
    assert_eq!(cls.classify("the cat sat"), Sentiment::Neutral);
}

#[test]
fn test_classifier_confidence() {
    let cls = SentimentClassifier::new();
    let (sent, conf) = classify_with_confidence(&cls, "great great great");
    assert_eq!(sent, Sentiment::Positive);
    assert!(conf > 0.0);
}

#[test]
fn test_classifier_empty() {
    let cls = SentimentClassifier::new();
    let (sent, conf) = classify_with_confidence(&cls, "");
    assert_eq!(sent, Sentiment::Neutral);
    assert_eq!(conf, 0.0);
}

#[test]
fn test_grammar_basic() {
    let mut g = TernaryGrammar::new(TernarySymbol::NonTerminal("S".into()));
    g.add_rule(ProductionRule::new(
        TernarySymbol::NonTerminal("S".into()),
        vec![TernarySymbol::Terminal("hello".into())],
    ));
    assert_eq!(g.rules().len(), 1);
    let gen = g.generate(2);
    assert!(gen.contains(&"hello".to_string()));
}

#[test]
fn test_grammar_is_terminal() {
    let mut g = TernaryGrammar::new(TernarySymbol::NonTerminal("S".into()));
    g.add_rule(ProductionRule::new(
        TernarySymbol::NonTerminal("S".into()),
        vec![TernarySymbol::Terminal("a".into())],
    ));
    assert!(g.is_terminal(&TernarySymbol::Terminal("a".into())));
    assert!(!g.is_terminal(&TernarySymbol::NonTerminal("S".into())));
}

#[test]
fn test_grammar_ternary_symbols() {
    let mut g = TernaryGrammar::new(TernarySymbol::NonTerminal("S".into()));
    g.add_rule(ProductionRule::new(
        TernarySymbol::NonTerminal("S".into()),
        vec![TernarySymbol::Ternary(1)],
    ));
    let gen = g.generate(2);
    assert!(gen.contains(&"T(1)".to_string()));
}

#[test]
fn test_parser_simple() {
    let mut g = TernaryGrammar::new(TernarySymbol::NonTerminal("S".into()));
    g.add_rule(ProductionRule::new(
        TernarySymbol::NonTerminal("S".into()),
        vec![TernarySymbol::Terminal("a".into()), TernarySymbol::Terminal("b".into())],
    ));
    let parser = TernaryParser::new(g);
    let result = parser.parse(&["a".to_string(), "b".to_string()]);
    assert!(result.is_some());
    let tree = result.unwrap();
    assert_eq!(tree.terminals(), vec!["a", "b"]);
}

#[test]
fn test_parser_fail() {
    let mut g = TernaryGrammar::new(TernarySymbol::NonTerminal("S".into()));
    g.add_rule(ProductionRule::new(
        TernarySymbol::NonTerminal("S".into()),
        vec![TernarySymbol::Terminal("a".into())],
    ));
    let parser = TernaryParser::new(g);
    assert!(parser.parse(&["b".to_string()]).is_none());
}

#[test]
fn test_parser_partial_fail() {
    let mut g = TernaryGrammar::new(TernarySymbol::NonTerminal("S".into()));
    g.add_rule(ProductionRule::new(
        TernarySymbol::NonTerminal("S".into()),
        vec![TernarySymbol::Terminal("a".into())],
    ));
    let parser = TernaryParser::new(g);
    assert!(parser.parse(&["a".to_string(), "b".to_string()]).is_none());
}

#[test]
fn test_language_model_train_and_query() {
    let mut lm = TernaryLanguageModel::new();
    lm.train(&[1, 1, 1, 1]);
    assert!(transition_prob(&lm, 1, 1) > 0.0);
    assert_eq!(lm.most_likely_next(1), 1);
}

#[test]
fn test_language_model_initial_prob() {
    let mut lm = TernaryLanguageModel::new();
    lm.train(&[1, 0, -1]);
    lm.train(&[1, 0, 0]);
    assert!(initial_prob(&lm, 1) > 0.4);
}

#[test]
fn test_language_model_sequence_prob() {
    let mut lm = TernaryLanguageModel::new();
    lm.train(&[1, 1, 0]);
    lm.train(&[0, 0, -1]);
    let p1 = sequence_log_prob(&lm, &[1, 1, 0]);
    let p2 = sequence_log_prob(&lm, &[-1, -1, -1]);
    assert!(p1 > p2);
}

#[test]
fn test_language_model_empty() {
    let lm = TernaryLanguageModel::new();
    assert_eq!(sequence_log_prob(&lm, &[]), 0.0);
    assert!((initial_prob(&lm, 0) - 1.0 / 3.0).abs() < 1e-9);
}

#[test]
fn test_parse_node_terminals() {
    let node = ParseNode::non_terminal("S", vec![
        ParseNode::terminal("a"),
        ParseNode::terminal("b"),
    ]);
    assert_eq!(node.terminals(), vec!["a", "b"]);
    assert!(!node.is_leaf());
    assert!(node.children[0].is_leaf());
}
