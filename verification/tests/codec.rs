use bayespam::classifier::Classifier;
use bayespam::rating::Rating;

fn chars(s: &str) -> Vec<char> {
    s.chars().collect()
}

fn text(v: &[char]) -> String {
    v.iter().collect()
}

#[test]
fn round_trip_compact_and_pretty() {
    let mut c = Classifier::new();
    c.train_spam("Don't forget our special promotion: -30% on men shoes, only today!");
    c.train_ham("Hi Bob, don't forget our meeting today at 4pm.");
    for pretty in [false, true] {
        let json = c.to_json(pretty);
        let back = Classifier::from_json(&json).expect("round trip must load");
        assert_eq!(back.table_len(), c.table_len());
        for i in 0..c.table_len() {
            let e1 = c.table_entry(i);
            let e2 = back.table_entry(i);
            assert_eq!(e1.0, e2.0);
            assert_eq!(e1.1.ham, e2.1.ham);
            assert_eq!(e1.1.spam, e2.1.spam);
        }
        assert_eq!(back.spam_total_count(), c.spam_total_count());
        assert_eq!(back.ham_total_count(), c.ham_total_count());
    }
}

#[test]
fn round_trip_empty_model() {
    let c = Classifier::new();
    let json = c.to_json(false);
    assert_eq!(text(&json), "{\"token_table\":{}}");
    let back = Classifier::from_json(&json).expect("empty model reloads");
    assert_eq!(back.table_len(), 0);
    assert_eq!(back.spam_total_count(), 0);
    assert_eq!(back.ham_total_count(), 0);
}

#[test]
fn compact_form_is_exactly_the_documented_shape() {
    let mut c = Classifier::new();
    c.train_spam("free");
    c.train_ham("meeting meeting");
    let json = text(&c.to_json(false));
    assert_eq!(
        json,
        "{\"token_table\":{\"free\":{\"ham\":0,\"spam\":1},\"meeting\":{\"ham\":2,\"spam\":0}}}"
    );
}

#[test]
fn pretty_form_reloads_identically() {
    let mut c = Classifier::new();
    c.train_spam("aaa bbb");
    let json = text(&c.to_json(true));
    assert!(json.contains('\n'));
    let back = Classifier::from_json(&chars(&json)).expect("pretty form reloads");
    assert_eq!(back.table_len(), 2);
}

#[test]
fn load_recomputes_totals_from_table() {
    let json = chars("{\"token_table\":{\"free\":{\"ham\":0,\"spam\":3},\"meeting\":{\"ham\":2,\"spam\":0}}}");
    let c = Classifier::from_json(&json).expect("well-formed model text");
    assert_eq!(c.spam_total_count(), 3);
    assert_eq!(c.ham_total_count(), 2);
    assert_eq!(c.rate_token("free"), Rating { spam_weight: 99, ham_weight: 1 });
    assert_eq!(c.rate_token("meeting"), Rating { spam_weight: 1, ham_weight: 99 });
}

#[test]
fn load_accepts_whitespace_and_either_field_order() {
    let json = chars(
        "{ \"token_table\" : {\n  \"a\" : { \"spam\" : 4 , \"ham\" : 1 }\n} }  ",
    );
    let c = Classifier::from_json(&json).expect("whitespace and swapped fields load");
    let e = c.table_entry(0);
    assert_eq!(e.1.spam, 4);
    assert_eq!(e.1.ham, 1);
    assert_eq!(c.spam_total_count(), 4);
    assert_eq!(c.ham_total_count(), 1);
}

#[test]
fn load_decodes_string_escapes() {
    let json = chars("{\"token_table\":{\"a\\\"b\\\\c\\u0041\\n\":{\"ham\":1,\"spam\":2}}}");
    let c = Classifier::from_json(&json).expect("escapes decode");
    let e = c.table_entry(0);
    assert_eq!(e.0, "a\"b\\cA\n");
    // and the decoded key survives a save/load cycle
    let again = Classifier::from_json(&c.to_json(false)).expect("escaped key round trips");
    assert_eq!(again.table_entry(0).0, "a\"b\\cA\n");
}

#[test]
fn load_rejects_malformed_text() {
    for bad in [
        "",
        "   ",
        "{}",
        "{\"token_table\":}",
        "{\"token_table\":{",
        "{\"other\":{}}",
        "{\"token_table\":{}} trailing",
        "{\"token_table\":{\"a\":{\"ham\":1}}}",
        "{\"token_table\":{\"a\":{\"ham\":1,\"spam\":2,\"x\":3}}}",
        "{\"token_table\":{\"a\":{\"ham\":1,\"ham\":2}}}",
        "{\"token_table\":{\"a\":{\"ham\":-1,\"spam\":2}}}",
        "{\"token_table\":{\"a\":{\"ham\":01,\"spam\":2}}}",
        "{\"token_table\":{\"a\":{\"ham\":4294967296,\"spam\":2}}}",
        "{\"token_table\":{\"a\":{\"ham\":1,\"spam\":2}",
        "{\"token_table\":{\"a\":{\"ham\":1,\"spam\":2},}}",
        "{\"token_table\":{\"a\":{\"ham\":1,\"spam\":2} \"b\":{\"ham\":1,\"spam\":2}}}",
        "{\"token_table\":{\"a\":{\"ham\":1,\"spam\":2},\"a\":{\"ham\":1,\"spam\":2}}}",
        "{\"token_table\":{\"a\\q\":{\"ham\":1,\"spam\":2}}}",
        "{\"token_table\":{\"a\\uD800\":{\"ham\":1,\"spam\":2}}}",
    ] {
        assert!(Classifier::from_json(&chars(bad)).is_err(), "should reject: {}", bad);
    }
}

#[test]
fn load_rejects_total_overflow() {
    let json = chars(
        "{\"token_table\":{\"a\":{\"ham\":0,\"spam\":4294967295},\"b\":{\"ham\":0,\"spam\":1}}}",
    );
    assert!(Classifier::from_json(&json).is_err());
}

#[test]
fn loaded_model_classifies_like_the_trained_one() {
    let mut c = Classifier::new();
    c.train_spam("Don't forget our special promotion: -30% on men shoes, only today!");
    c.train_ham("Hi Bob, don't forget our meeting today at 4pm.");
    let back = Classifier::from_json(&c.to_json(true)).expect("model reloads");
    let spam = "Lose up to 19% weight. Special promotion on our new weightloss.";
    let ham = "Hi Bob, can you send me your machine learning homework?";
    assert!(back.identify(spam));
    assert!(!back.identify(ham));
}
