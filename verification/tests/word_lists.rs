use uuid_readable_rs::lexicon::{make_category, required_words, CategoryId, LexiconError};
use uuid_readable_rs::words::{has_space, Category};

fn word_list(stem: &str, count: usize, known: &[(usize, &str)]) -> Vec<String> {
    let mut list: Vec<String> = (0..count).map(|i| format!("{}{}", stem, i)).collect();
    for (index, word) in known {
        list[*index] = word.to_string();
    }
    list
}

fn names() -> Vec<String> {
    word_list(
        "name",
        16384,
        &[
            (0, "Fusco"),
            (3, "Egidius"),
            (238, "Purdy"),
            (1160, "Lehet"),
            (2047, "Concordia"),
            (2462, "Barbe"),
            (3628, "Pardew"),
            (4095, "Antone"),
            (14562, "Kask"),
            (15903, "Caravette"),
            (16383, "Katharyn"),
        ],
    )
}

fn personal_nouns() -> Vec<String> {
    word_list("noun", 8192, &[(0, "muleteer"), (3021, "loki"), (8191, "minister")])
}

fn places() -> Vec<String> {
    word_list("place", 8192, &[(0, "Katy"), (1428, "Manteo"), (8191, "Mosinee")])
}

fn verbs() -> Vec<String> {
    word_list(
        "verb",
        1024,
        &[(0, "suspended"), (46, "filled"), (841, "observed"), (1023, "trotted")],
    )
}

fn adjectives() -> Vec<String> {
    word_list("adjective", 256, &[(0, "mysterious"), (14, "calm"), (48, "hard"), (63, "slow")])
}

fn animals() -> Vec<String> {
    word_list("animal", 128, &[(0, "rooks"), (7, "hawks"), (122, "herons"), (127, "hogs")])
}

#[test]
fn test_adjectives_sanity() {
    let mut tmp_vec = adjectives();

    for x in &tmp_vec {
        assert!(!x.contains(" "));
    }

    let length_before = tmp_vec.len();
    tmp_vec.sort();
    tmp_vec.dedup();
    let length_after = tmp_vec.len();

    assert_eq!(length_before, length_after);
    assert!(make_category(CategoryId::Adjectives, adjectives()).is_ok());
}

#[test]
fn test_animals_sanity() {
    let mut tmp_vec = animals();

    for x in &tmp_vec {
        assert!(!x.contains(" "));
    }

    let length_before = tmp_vec.len();
    tmp_vec.sort();
    tmp_vec.dedup();
    let length_after = tmp_vec.len();

    assert_eq!(length_before, length_after);
    assert!(make_category(CategoryId::Animals, animals()).is_ok());
}

#[test]
fn test_names_sanity() {
    let mut tmp_vec = names();

    for x in &tmp_vec {
        assert!(!x.contains(" "));
    }

    let length_before = tmp_vec.len();
    tmp_vec.sort();
    tmp_vec.dedup();
    let length_after = tmp_vec.len();

    assert_eq!(length_before, length_after);
    assert!(make_category(CategoryId::Names, names()).is_ok());
}

#[test]
fn test_personal_nouns_sanity() {
    let mut tmp_vec = personal_nouns();

    for x in &tmp_vec {
        assert!(!x.contains(" "));
    }

    let length_before = tmp_vec.len();
    tmp_vec.sort();
    tmp_vec.dedup();
    let length_after = tmp_vec.len();

    assert_eq!(length_before, length_after);
    assert!(make_category(CategoryId::PersonalNouns, personal_nouns()).is_ok());
}

#[test]
fn test_places_sanity() {
    let mut tmp_vec = places();

    for x in &tmp_vec {
        assert!(!x.contains(" "));
    }

    let length_before = tmp_vec.len();
    tmp_vec.sort();
    tmp_vec.dedup();
    let length_after = tmp_vec.len();

    assert_eq!(length_before, length_after);
    assert!(make_category(CategoryId::Places, places()).is_ok());
}

#[test]
fn test_verbs_sanity() {
    let mut tmp_vec = verbs();

    for x in &tmp_vec {
        assert!(!x.contains(" "));
    }

    let length_before = tmp_vec.len();
    tmp_vec.sort();
    tmp_vec.dedup();
    let length_after = tmp_vec.len();

    assert_eq!(length_before, length_after);
    assert!(make_category(CategoryId::Verbs, verbs()).is_ok());
}

fn list(words: &[&str]) -> Vec<String> {
    words.iter().map(|w| w.to_string()).collect()
}

#[test]
fn category_keeps_the_order_of_its_words() {
    let category = Category::new(list(&["b", "a", "", "c"])).unwrap();
    assert_eq!(category.len(), 4);
    assert_eq!(category.word_at(0), "b");
    assert_eq!(category.word_at(2), "");
    assert_eq!(category.index_of("a"), Some(1));
    assert_eq!(category.index_of("c"), Some(3));
    assert_eq!(category.index_of(""), Some(2));
    assert_eq!(category.index_of("A"), None);
    assert_eq!(category.index_of("a "), None);
}

#[test]
fn category_rejects_a_word_twice() {
    assert!(Category::new(list(&["a", "b", "a"])).is_none());
    assert!(Category::new(list(&["a", "b", "c", "c"])).is_none());
    assert!(Category::new(list(&["a", "b", "A"])).is_some());
    assert!(Category::new(Vec::new()).is_some());
}

#[test]
fn category_rejects_a_word_with_a_space() {
    assert!(Category::new(list(&["a", "b c"])).is_none());
    assert!(Category::new(list(&[" a"])).is_none());
    assert!(Category::new(list(&["a "])).is_none());
    assert!(Category::new(list(&["a\tb"])).is_some());
}

#[test]
fn has_space_finds_a_space_anywhere() {
    assert!(!has_space(""));
    assert!(!has_space("word"));
    assert!(has_space(" "));
    assert!(has_space("two words"));
    assert!(has_space("end "));
    assert!(!has_space("na\u{ef}ve"));
}

#[test]
fn every_category_has_room_for_its_widest_segment() {
    assert_eq!(required_words(CategoryId::Names), 1 << 14);
    assert_eq!(required_words(CategoryId::PersonalNouns), 1 << 13);
    assert_eq!(required_words(CategoryId::Places), 1 << 13);
    assert_eq!(required_words(CategoryId::Verbs), 1 << 10);
    assert_eq!(required_words(CategoryId::Adjectives), 1 << 8);
    assert_eq!(required_words(CategoryId::Animals), 1 << 7);
}

#[test]
fn make_category_says_what_is_wrong() {
    assert_eq!(
        make_category(CategoryId::Animals, list(&["a", "b"])).err(),
        Some(LexiconError::TooFew(CategoryId::Animals))
    );
    let mut twice = animals();
    twice[5] = "rooks".to_string();
    assert_eq!(
        make_category(CategoryId::Animals, twice).err(),
        Some(LexiconError::Invalid(CategoryId::Animals))
    );
    let made = make_category(CategoryId::Animals, animals()).unwrap();
    assert_eq!(made.len(), 128);
    assert_eq!(made.word_at(127), "hogs");
}
