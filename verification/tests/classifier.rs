use bayespam::classifier::Classifier;
use bayespam::rating::Rating;

#[test]
fn test_new() {
    // Create a new classifier with an empty model
    let mut classifier = Classifier::new();

    // Train the classifier with a new spam example
    let spam = "Don't forget our special promotion: -30% on men shoes, only today!";
    classifier.train_spam(spam);

    // Train the classifier with a new ham example
    let ham = "Hi Bob, don't forget our meeting today at 4pm.";
    classifier.train_ham(ham);

    // Identify a typical spam message
    let spam = "Lose up to 19% weight. Special promotion on our new weightloss.";
    let is_spam = classifier.identify(spam);
    assert!(is_spam);

    // Identify a typical ham message
    let ham = "Hi Bob, can you send me your machine learning homework?";
    let is_spam = classifier.identify(ham);
    assert!(!is_spam);
}

#[test]
fn test_new_unicode() {
    // Create a new classifier with an empty model
    let mut classifier = Classifier::new();

    // Train the classifier with a new spam example
    let spam = "Bon plan pour Nöel: profitez de -50% sur le 2ème article.";
    classifier.train_spam(spam);

    // Train the classifier with a new ham example
    let ham = "Vous êtes tous cordialement invités à notre repas de Noël.";
    classifier.train_ham(ham);

    // Identify a typical spam message
    let spam = "Préparez les fêtes de Nöel: 1 article offert!";
    let is_spam = classifier.identify(spam);
    assert!(is_spam);

    // Identify a typical ham message
    let ham = "Pourras-tu être des nôtres pour le repas de Noël?";
    let is_spam = classifier.identify(ham);
    assert!(!is_spam);
}

#[test]
fn rate_token_spam_only_is_99_hundredths() {
    let mut c = Classifier::new();
    c.train_spam("free money now");
    assert_eq!(c.rate_token("free"), Rating { spam_weight: 99, ham_weight: 1 });
    assert_eq!(c.rate_token("money"), Rating { spam_weight: 99, ham_weight: 1 });
}

#[test]
fn rate_token_ham_only_is_1_hundredth() {
    let mut c = Classifier::new();
    c.train_ham("meeting agenda");
    assert_eq!(c.rate_token("meeting"), Rating { spam_weight: 1, ham_weight: 99 });
}

#[test]
fn rate_token_unseen_is_one_half() {
    let mut c = Classifier::new();
    assert_eq!(c.rate_token("anything"), Rating { spam_weight: 1, ham_weight: 1 });
    c.train_spam("alpha");
    c.train_ham("beta");
    assert_eq!(c.rate_token("gamma"), Rating { spam_weight: 1, ham_weight: 1 });
}

#[test]
fn rate_token_mixed_counts_exact_ratio() {
    let mut c = Classifier::new();
    // "alpha" appears once in spam and once in ham; totals are 2 and 2.
    c.train_spam("alpha beta");
    c.train_ham("alpha gamma");
    // spam * ham_total = 1 * 2, ham * spam_total = 1 * 2: rating 2 / (2 + 2)
    assert_eq!(c.rate_token("alpha"), Rating { spam_weight: 2, ham_weight: 2 });
}

#[test]
fn rate_token_mixed_counts_floored_at_1_hundredth() {
    let mut c = Classifier::new();
    // "x" once in spam among 200 spam observations, once in ham of 1:
    // ratio 1*1 / (1*1 + 1*200) is below one hundredth, so the floor holds.
    let mut spam_msg = String::from("x");
    for _ in 0..199 {
        spam_msg.push_str(" filler");
    }
    c.train_spam(&spam_msg);
    c.train_ham("x");
    assert_eq!(c.rate_token("x"), Rating { spam_weight: 1, ham_weight: 99 });
}

#[test]
fn score_empty_table_non_empty_message_is_one_half() {
    let c = Classifier::new();
    let s = c.score("hello world this is a message");
    assert!(s.equals_ratio(1, 2));
}

#[test]
fn score_empty_tokenization_is_zero() {
    let mut c = Classifier::new();
    c.train_spam("some words");
    assert!(c.score("").equals_ratio(0, 1));
    assert!(c.score("!!! ... --- ???").equals_ratio(0, 1));
    assert!(c.score("   ").equals_ratio(0, 1));
}

#[test]
fn identify_false_on_empty_model() {
    let c = Classifier::new();
    assert!(!c.identify("anything at all"));
    assert!(!c.identify(""));
}

#[test]
fn tokenizer_splits_words_not_whole_text() {
    let mut c = Classifier::new();
    c.train_spam("Hello, world!");
    // punctuation is dropped and words are separated
    assert_eq!(c.rate_token("Hello"), Rating { spam_weight: 99, ham_weight: 1 });
    assert_eq!(c.rate_token("world"), Rating { spam_weight: 99, ham_weight: 1 });
    assert_eq!(c.rate_token("Hello,"), Rating { spam_weight: 1, ham_weight: 1 });
    assert_eq!(c.rate_token("Hello, world!"), Rating { spam_weight: 1, ham_weight: 1 });
    assert_eq!(c.spam_total_count(), 2);
    assert_eq!(c.ham_total_count(), 0);
}

#[test]
fn totals_are_table_sums_after_training() {
    let mut c = Classifier::new();
    c.train_spam("a b a");
    c.train_ham("a c");
    let mut spam_sum: u32 = 0;
    let mut ham_sum: u32 = 0;
    for i in 0..c.table_len() {
        let e = c.table_entry(i);
        spam_sum += e.1.spam;
        ham_sum += e.1.ham;
    }
    assert_eq!(c.spam_total_count(), spam_sum);
    assert_eq!(c.ham_total_count(), ham_sum);
    assert_eq!(spam_sum, 3);
    assert_eq!(ham_sum, 2);
}

#[test]
fn rating_monotone_in_spam_count() {
    // same token trained as spam once vs. three times (ham fixed):
    // the rating must not decrease.
    let mut c1 = Classifier::new();
    c1.train_spam("tok");
    c1.train_spam("other words here");
    c1.train_ham("tok");
    let mut c2 = Classifier::new();
    c2.train_spam("tok");
    c2.train_spam("tok");
    c2.train_spam("tok");
    c2.train_spam("other words here");
    c2.train_ham("tok");
    let r1 = c1.rate_token("tok");
    let r2 = c2.rate_token("tok");
    // r1 <= r2 as rationals: cross-multiply
    assert!(
        (r1.spam_weight as u128) * (r2.ham_weight as u128)
            <= (r2.spam_weight as u128) * (r1.ham_weight as u128)
    );
}

#[test]
fn score_selection_keeps_ten_lowest_and_ten_highest() {
    let mut c = Classifier::new();
    c.train_ham("ha hb hc hd he hf hg hh hi hj hk");
    c.train_spam("sa sb sc sd se sf sg sh si sj sk");
    // 25 tokens: 11 rate one hundredth, 11 rate ninety-nine hundredths,
    // 3 rate one half. The ten lowest and ten highest cancel exactly.
    let msg = "ha hb hc hd he hf hg hh hi hj hk sa sb sc sd se sf sg sh si sj sk ua ub uc";
    let s = c.score(msg);
    assert!(s.equals_ratio(1, 2));
    assert!(!c.identify(msg));
}

#[test]
fn score_strongly_ham_message_is_tiny() {
    let mut c = Classifier::new();
    c.train_ham("w1 w2 w3 w4 w5 w6 w7 w8 w9 w10 w11 w12 w13 w14 w15 w16 w17 w18 w19 w20 w21");
    let msg = "w1 w2 w3 w4 w5 w6 w7 w8 w9 w10 w11 w12 w13 w14 w15 w16 w17 w18 w19 w20 w21";
    let s = c.score(msg);
    assert!(!s.exceeds(1, 1000000));
    assert!(!c.identify(msg));
}

#[test]
fn score_all_unseen_is_exactly_one_half_and_not_spam() {
    let mut c = Classifier::new();
    c.train_spam("something");
    let s = c.score("totally different words");
    assert!(s.equals_ratio(1, 2));
    assert!(!s.exceeds(4, 5));
    assert!(s.exceeds(1, 3));
}
