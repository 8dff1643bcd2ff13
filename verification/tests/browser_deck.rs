use kessetsu::model_resources::browser_analysis_with_resources;
use kessetsu::models::{builtin_model, ExternalModelResources};
use kessetsu::text::i64_text;

#[test]
fn browser_deck_without_external_models_is_kept() {
    let deck = "* deck\nD1 a 0 1N4148\n.model 1N4148 D (Is=2.52n)\n";
    let models = vec![builtin_model("1n4148").expect("built-in")];
    let out = browser_analysis_with_resources(deck, &models, &ExternalModelResources::new()).expect("deck");
    assert_eq!(out, deck);
    let mut files = ExternalModelResources::new();
    files.insert("../escape.lib".to_string(), b"* x".to_vec());
    assert!(browser_analysis_with_resources(deck, &models, &files).is_err());
}

#[test]
fn integer_text_covers_the_whole_range() {
    assert_eq!(i64_text(i64::MIN), "-9223372036854775808");
    assert_eq!(i64_text(i64::MAX), "9223372036854775807");
    assert_eq!(i64_text(-42), "-42");
    assert_eq!(i64_text(0), "0");
}
