use video_dubber::text::{join_spaced, split_words, texts_similar, trim};

fn words(s: &str) -> Vec<String> {
    split_words(s).into_iter().map(|w| w.into_iter().collect()).collect()
}

#[test]
fn words_are_split_on_unicode_whitespace() {
    assert_eq!(words("  um\tdois\u{3000}três \n"), vec!["um", "dois", "três"]);
    assert!(words(" \u{a0} ").is_empty());
}

#[test]
fn similarity_is_shared_word_share() {
    assert!(texts_similar(&"hello world again".to_string(), &"hello world again now".to_string()));
    assert!(!texts_similar(&"a b".to_string(), &"b c".to_string()));
    assert!(!texts_similar(&"g".to_string(), &"g h".to_string()));
    assert!(texts_similar(&"".to_string(), &"   ".to_string()));
    assert!(!texts_similar(&"".to_string(), &"x".to_string()));
    assert!(texts_similar(&"a a b".to_string(), &"b a".to_string()));
}

#[test]
fn trim_and_join() {
    assert_eq!(trim("\u{2003} Olá \n"), "Olá");
    assert_eq!(trim("   "), "");
    assert_eq!(join_spaced(&"a".to_string(), &"b".to_string()), "a b");
}
