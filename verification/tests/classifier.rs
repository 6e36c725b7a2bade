use feed_sync::classifier::{lower_case_text, EntryContent, NaiveBayesClassifier, TokenOdds};
use feed_sync::entry::Entry;
use feed_sync::persistence::{StorageError, StoredRow};
use feed_sync::tokens::tokenize;

/// The score that the weights of a sweep stand for.
fn score(verdict: &Option<Vec<TokenOdds>>) -> f64 {
    let odds = match verdict {
        Some(odds) => odds,
        None => return 1.,
    };
    let epsilon = 1e-9;
    let mut log_prob_if_dislike = 0.;
    let mut log_prob_if_like = 0.;
    for token in odds {
        let prob_if_disliked = (token.disliked_weight as f64 / token.total_weight as f64)
            .max(epsilon)
            .min(1. - epsilon);
        let prob_if_like =
            (token.liked_weight as f64 / token.total_weight as f64).max(epsilon).min(1. - epsilon);
        if token.present {
            log_prob_if_dislike += prob_if_disliked.ln();
            log_prob_if_like += prob_if_like.ln();
        } else {
            log_prob_if_dislike += (1. - prob_if_disliked).ln();
            log_prob_if_like += (1. - prob_if_like).ln();
        }
    }
    let prob_if_dislike = log_prob_if_dislike.exp();
    let prob_if_like = log_prob_if_like.exp();
    let total = prob_if_like + prob_if_dislike;
    if total > 0. {
        prob_if_like / total
    } else {
        1.
    }
}

fn odds(present: bool, disliked_weight: u128, liked_weight: u128, total_weight: u128) -> TokenOdds {
    TokenOdds { present, disliked_weight, liked_weight, total_weight }
}

fn row(text: &str, label: Option<i64>) -> StoredRow {
    StoredRow {
        title: Some(text.to_string()),
        summary: None,
        content: None,
        authors: None,
        categories: None,
        links: None,
        is_liked: label,
    }
}

fn with_body(body: &str) -> Entry {
    let mut entry = Entry::default();
    entry.content = Some(body.to_string());
    entry
}

fn small_corpus() -> Vec<EntryContent> {
    vec![
        EntryContent::new("free bitcoin christmas deals".to_string(), false),
        EntryContent::new("dear granddaughter explain bitcoin over christmas dinner".to_string(), false),
        EntryContent::new("here in my garage".to_string(), true),
    ]
}

#[test]
fn naive_bayes() {
    let train_messages = [
        EntryContent::new("Free Bitcoin viagra XXX christmas deals 😻😻😻".to_string(), true),
        EntryContent::new(
            "My dear Granddaughter, please explain Bitcoin over Christmas dinner".to_string(),
            false,
        ),
        EntryContent::new("Here in my garage...".to_string(), true),
    ];

    let alpha = 1.;
    let num_spam_messages = 2.;
    let num_ham_messages = 1.;

    let mut model = NaiveBayesClassifier::new_classifier(1);
    model.train(train_messages.to_vec());

    let mut expected_tokens: Vec<String> = Vec::new();
    for message in train_messages.iter() {
        for token in tokenize(&message.all_content().to_lowercase()) {
            if !expected_tokens.contains(&token) {
                expected_tokens.push(token);
            }
        }
    }

    let input_text = "Bitcoin crypto academy Christmas deals";

    let probs_if_spam = [
        1. - (1. + alpha) / (num_spam_messages + 2. * alpha), // "Free"  (not present)
        (1. + alpha) / (num_spam_messages + 2. * alpha),      // "Bitcoin"  (present)
        1. - (1. + alpha) / (num_spam_messages + 2. * alpha), // "viagra"  (not present)
        1. - (1. + alpha) / (num_spam_messages + 2. * alpha), // "XXX"  (not present)
        (1. + alpha) / (num_spam_messages + 2. * alpha),      // "christmas"  (present)
        (1. + alpha) / (num_spam_messages + 2. * alpha),      // "deals"  (present)
        1. - (1. + alpha) / (num_spam_messages + 2. * alpha), // "my"  (not present)
        1. - (0. + alpha) / (num_spam_messages + 2. * alpha), // "dear"  (not present)
        1. - (0. + alpha) / (num_spam_messages + 2. * alpha), // "granddaughter"  (not present)
        1. - (0. + alpha) / (num_spam_messages + 2. * alpha), // "please"  (not present)
        1. - (0. + alpha) / (num_spam_messages + 2. * alpha), // "explain"  (not present)
        1. - (0. + alpha) / (num_spam_messages + 2. * alpha), // "over"  (not present)
        1. - (0. + alpha) / (num_spam_messages + 2. * alpha), // "dinner"  (not present)
        1. - (1. + alpha) / (num_spam_messages + 2. * alpha), // "here"  (not present)
        1. - (1. + alpha) / (num_spam_messages + 2. * alpha), // "in"  (not present)
        1. - (1. + alpha) / (num_spam_messages + 2. * alpha), // "garage"  (not present)
    ];

    let probs_if_ham = [
        1. - (0. + alpha) / (num_ham_messages + 2. * alpha), // "Free"  (not present)
        (1. + alpha) / (num_ham_messages + 2. * alpha),      // "Bitcoin"  (present)
        1. - (0. + alpha) / (num_ham_messages + 2. * alpha), // "viagra"  (not present)
        1. - (0. + alpha) / (num_ham_messages + 2. * alpha), // "XXX"  (not present)
        (1. + alpha) / (num_ham_messages + 2. * alpha),      // "christmas"  (present)
        (0. + alpha) / (num_ham_messages + 2. * alpha),      // "deals"  (present)
        1. - (1. + alpha) / (num_ham_messages + 2. * alpha), // "my"  (not present)
        1. - (1. + alpha) / (num_ham_messages + 2. * alpha), // "dear"  (not present)
        1. - (1. + alpha) / (num_ham_messages + 2. * alpha), // "granddaughter"  (not present)
        1. - (1. + alpha) / (num_ham_messages + 2. * alpha), // "please"  (not present)
        1. - (1. + alpha) / (num_ham_messages + 2. * alpha), // "explain"  (not present)
        1. - (1. + alpha) / (num_ham_messages + 2. * alpha), // "over"  (not present)
        1. - (1. + alpha) / (num_ham_messages + 2. * alpha), // "dinner"  (not present)
        1. - (0. + alpha) / (num_ham_messages + 2. * alpha), // "here"  (not present)
        1. - (0. + alpha) / (num_ham_messages + 2. * alpha), // "in"  (not present)
        1. - (0. + alpha) / (num_ham_messages + 2. * alpha), // "garage"  (not present)
    ];

    let p_if_spam_log: f64 = probs_if_spam.iter().map(|p: &f64| p.ln()).sum();
    let p_if_spam = p_if_spam_log.exp();

    let p_if_ham_log: f64 = probs_if_ham.iter().map(|p: &f64| p.ln()).sum();
    let p_if_ham = p_if_ham_log.exp();
    let mut entry = Entry::default();
    entry.content = Some(input_text.to_string());
    // P(message | spam) / (P(messge | spam) + P(message | ham)) rounds to 0.97

    assert!((score(&model.classify(&entry)) - p_if_spam / (p_if_spam + p_if_ham)).abs() < 0.034);
}

#[test]
fn untrained_model_accepts_everything() {
    let mut model = NaiveBayesClassifier::new_classifier(1);
    assert!(!model.is_prepared());
    model.train(vec![]);
    assert!(!model.is_prepared());
    assert!(model.tokens().is_empty());
    assert_eq!(model.liked_entries_count(), 0);
    assert_eq!(model.disliked_entries_count(), 0);
    assert_eq!(model.classify(&with_body("anything at all")), None);
    assert_eq!(model.classify(&Entry::default()), None);
    assert_eq!(score(&model.classify(&with_body("bitcoin"))), 1.);
    assert!(model.probabilities_of_message(&tokenize("bitcoin")).is_empty());
}

#[test]
fn training_counts_entries_that_hold_a_token() {
    let mut model = NaiveBayesClassifier::new_classifier(1);
    model.train(small_corpus());
    assert!(!model.is_prepared());
    assert_eq!(model.alpha(), 1);
    assert_eq!(model.liked_entries_count(), 1);
    assert_eq!(model.disliked_entries_count(), 2);
    assert_eq!(
        model.tokens(),
        vec![
            "free", "bitcoin", "christmas", "deals", "dear", "granddaughter", "explain", "over",
            "dinner", "here", "in", "my", "garage"
        ]
    );
    assert_eq!(model.token_counts(&"bitcoin".to_string()), Some((0, 2)));
    assert_eq!(model.token_counts(&"deals".to_string()), Some((0, 1)));
    assert_eq!(model.token_counts(&"garage".to_string()), Some((1, 0)));
    assert_eq!(model.token_counts(&"crypto".to_string()), None);
}

#[test]
fn a_token_counts_once_for_an_entry() {
    let mut model = NaiveBayesClassifier::new_classifier(1);
    model.train(
        vec![
            EntryContent::new("spam spam spam eggs spam".to_string(), true),
            EntryContent::new("eggs eggs".to_string(), true),
            EntryContent::new("spam".to_string(), false),
        ],
    );
    assert_eq!(model.tokens(), vec!["spam", "eggs"]);
    assert_eq!(model.token_counts(&"spam".to_string()), Some((1, 1)));
    assert_eq!(model.token_counts(&"eggs".to_string()), Some((2, 0)));
    assert_eq!(model.liked_entries_count(), 2);
    assert_eq!(model.disliked_entries_count(), 1);
}

#[test]
fn training_again_forgets_the_earlier_counts() {
    let mut model = NaiveBayesClassifier::new_classifier(3);
    model.train(small_corpus());
    model.train(vec![EntryContent::new("only this".to_string(), true)]);
    assert_eq!(model.alpha(), 3);
    assert_eq!(model.tokens(), vec!["only", "this"]);
    assert_eq!(model.liked_entries_count(), 1);
    assert_eq!(model.disliked_entries_count(), 0);
    assert_eq!(model.token_counts(&"bitcoin".to_string()), None);
}

#[test]
fn sweep_reports_every_token_of_the_vocabulary() {
    let mut model = NaiveBayesClassifier::new_classifier(1);
    model.train(small_corpus());
    let sweep = model.probabilities_of_message(&tokenize("bitcoin christmas deals"));
    assert_eq!(
        sweep,
        vec![
            odds(false, 2, 1, 3), // free
            odds(true, 3, 1, 3),  // bitcoin
            odds(true, 3, 1, 3),  // christmas
            odds(true, 2, 1, 3),  // deals
            odds(false, 2, 1, 3), // dear
            odds(false, 2, 1, 3), // granddaughter
            odds(false, 2, 1, 3), // explain
            odds(false, 2, 1, 3), // over
            odds(false, 2, 1, 3), // dinner
            odds(false, 1, 2, 3), // here
            odds(false, 1, 2, 3), // in
            odds(false, 1, 2, 3), // my
            odds(false, 1, 2, 3), // garage
        ]
    );
}

#[test]
fn weights_use_the_smoothing_constant() {
    let mut model = NaiveBayesClassifier::new_classifier(5);
    model.train(small_corpus());
    let sweep = model.probabilities_of_message(&vec![]);
    assert_eq!(sweep.len(), 13);
    // bitcoin: 2 disliked entries, 0 liked; 1 liked entry in all
    assert_eq!(sweep[1], odds(false, 2 + 5, 0 + 5, 1 + 2 * 5));
    // garage: 0 disliked entries, 1 liked
    assert_eq!(sweep[12], odds(false, 0 + 5, 1 + 5, 1 + 2 * 5));
}

#[test]
fn small_corpus_is_skewed_toward_disliked() {
    let mut model = NaiveBayesClassifier::new_classifier(1);
    model.train(small_corpus());
    let sweep = Some(model.probabilities_of_message(&tokenize("bitcoin christmas deals")));
    // the product of the probabilities of each token, with both taken over
    // the number of liked entries plus twice the smoothing constant
    let e = 1e-9;
    let if_disliked: f64 = [
        1. - 2. / 3.,
        1. - e,
        1. - e,
        2. / 3.,
        1. - 2. / 3.,
        1. - 2. / 3.,
        1. - 2. / 3.,
        1. - 2. / 3.,
        1. - 2. / 3.,
        1. - 1. / 3.,
        1. - 1. / 3.,
        1. - 1. / 3.,
        1. - 1. / 3.,
    ]
    .iter()
    .product();
    let if_liked: f64 = [
        1. - 1. / 3.,
        1. / 3.,
        1. / 3.,
        1. / 3.,
        1. - 1. / 3.,
        1. - 1. / 3.,
        1. - 1. / 3.,
        1. - 1. / 3.,
        1. - 1. / 3.,
        1. - 2. / 3.,
        1. - 2. / 3.,
        1. - 2. / 3.,
        1. - 2. / 3.,
    ]
    .iter()
    .product();
    let expected = if_liked / (if_liked + if_disliked);
    let got = score(&sweep);
    assert!((got - expected).abs() < 1e-9);
    assert!(got < 0.5);
}

fn large_corpus() -> Vec<EntryContent> {
    let mut data = Vec::new();
    for _ in 0..51 {
        data.push(EntryContent::new("bitcoin christmas".to_string(), false));
        data.push(EntryContent::new("garden".to_string(), true));
    }
    data
}

#[test]
fn prepared_model_weighs_an_entry() {
    let mut model = NaiveBayesClassifier::new_classifier(1);
    model.train(large_corpus());
    assert!(model.is_prepared());
    assert_eq!(model.liked_entries_count(), 51);
    assert_eq!(model.disliked_entries_count(), 51);
    let mut entry = Entry::default();
    entry.title = Some("Bitcoin".to_string());
    entry.summary = Some("CHRISTMAS deals".to_string());
    let verdict = model.classify(&entry);
    assert_eq!(
        verdict,
        Some(vec![odds(true, 52, 1, 53), odds(true, 52, 1, 53), odds(false, 1, 52, 53)])
    );
    let expected = 1. / (1. + 52. * 52. * 52.);
    assert!((score(&verdict) - expected).abs() < 1e-9);

    let verdict = model.classify(&with_body("My Garden"));
    assert_eq!(
        verdict,
        Some(vec![odds(false, 52, 1, 53), odds(false, 52, 1, 53), odds(true, 1, 52, 53)])
    );
    assert!((score(&verdict) - (1. - expected)).abs() < 1e-9);
}

#[test]
fn preparation_needs_more_than_a_hundred_entries() {
    let mut data = large_corpus();
    data.truncate(100);
    let mut model = NaiveBayesClassifier::new_classifier(1);
    model.train(data);
    assert!(!model.is_prepared());
    assert_eq!(model.classify(&with_body("bitcoin")), None);
    assert_eq!(model.tokens(), vec!["bitcoin", "christmas", "garden"]);

    let mut data = large_corpus();
    data.truncate(101);
    model.train(data);
    assert!(model.is_prepared());
    assert!(model.classify(&with_body("bitcoin")).is_some());
}

#[test]
fn a_score_that_vanishes_on_both_sides_means_accept() {
    let sweep: Vec<TokenOdds> = (0..2000).map(|_| odds(true, 1, 1, 1_000_000)).collect();
    assert_eq!(score(&Some(sweep)), 1.);
}

#[test]
fn entry_text_joins_the_fields_with_spaces() {
    let entry = Entry {
        id: "ID".to_string(),
        title: Some("The Title".to_string()),
        summary: Some("A Summary".to_string()),
        content: Some("Some Body".to_string()),
        authors: vec!["Ann Lee".to_string(), "Bob".to_string()],
        categories: vec!["News".to_string(), "Tech".to_string()],
        links: vec!["HTTP://A/One".to_string(), "http://a/two".to_string()],
        language: Some("EN".to_string()),
        published: Some("2010".to_string()),
    };
    assert_eq!(
        lower_case_text(&entry),
        "the title a summary some body ann lee bob news tech http://a/one"
    );
    assert_eq!(lower_case_text(&Entry::default()), "     ");
    let judged = EntryContent::from_entry(&entry, true);
    assert_eq!(
        judged.all_content(),
        "the title a summary some body ann lee bob news tech http://a/one"
    );
    assert!(judged.liked());
}

#[test]
fn row_text_joins_the_columns_with_spaces() {
    let full = StoredRow {
        title: Some("t".to_string()),
        summary: Some("s".to_string()),
        content: Some("\"c\"".to_string()),
        authors: Some("[\"a\"]".to_string()),
        categories: Some("[]".to_string()),
        links: Some("\"l\"".to_string()),
        is_liked: Some(1),
    };
    let content = EntryContent::from_row(&full);
    assert_eq!(content.all_content(), "t s \"c\" [\"a\"] [] \"l\"");
    assert!(content.liked());

    let sparse = row("only a title", Some(0));
    let content = EntryContent::from_row(&sparse);
    assert_eq!(content.all_content(), "only a title     ");
    assert!(!content.liked());

    assert!(EntryContent::from_row(&row("x", Some(-7))).liked());
}

#[test]
fn a_row_without_a_label_is_refused() {
    let rows = vec![row("a", Some(1)), row("b", None), row("c", Some(0))];
    assert_eq!(NaiveBayesClassifier::new(&rows).err(), Some(StorageError::MissingLabel));
    assert_eq!(NaiveBayesClassifier::new(&vec![row("x", None)]).err(), Some(StorageError::MissingLabel));
    let mut many: Vec<StoredRow> = (0..150).map(|_| row("x", Some(1))).collect();
    many.push(row("last", None));
    assert_eq!(NaiveBayesClassifier::new(&many).err(), Some(StorageError::MissingLabel));
}

#[test]
fn model_from_few_rows_is_empty() {
    let rows: Vec<StoredRow> = (0..100).map(|i| row("bitcoin", Some(i % 2))).collect();
    let model = NaiveBayesClassifier::new(&rows).unwrap();
    assert!(!model.is_prepared());
    assert!(model.tokens().is_empty());
    assert_eq!(model.liked_entries_count(), 0);
    assert_eq!(model.alpha(), 1);
    assert_eq!(model.classify(&with_body("bitcoin")), None);
    let model = NaiveBayesClassifier::new(&vec![]).unwrap();
    assert!(!model.is_prepared());
}

#[test]
fn model_from_many_rows_is_trained() {
    let rows: Vec<StoredRow> = (0..101)
        .map(|i| if i % 2 == 0 { row("bitcoin", Some(0)) } else { row("garden", Some(1)) })
        .collect();
    let model = NaiveBayesClassifier::new(&rows).unwrap();
    assert!(model.is_prepared());
    assert_eq!(model.tokens(), vec!["bitcoin", "garden"]);
    assert_eq!(model.liked_entries_count(), 50);
    assert_eq!(model.disliked_entries_count(), 51);
    assert_eq!(model.token_counts(&"bitcoin".to_string()), Some((0, 51)));
    assert_eq!(
        model.classify(&with_body("Bitcoin")),
        Some(vec![odds(true, 52, 1, 52), odds(false, 1, 51, 52)])
    );
}
