use uuid::Uuid;
use uuid_readable_rs::codec::DecodeError;
use uuid_readable_rs::lexicon::{CategoryId, Lexicon, LexiconError};
use uuid_readable_rs::{generate, generate_from, generate_inverse, short, short_from};

fn word_list(stem: &str, count: usize, known: &[(usize, &str)]) -> Vec<String> {
    let mut list: Vec<String> = (0..count).map(|i| format!("{}{}", stem, i)).collect();
    for (index, word) in known {
        list[*index] = word.to_string();
    }
    list
}

fn names() -> Vec<String> {
    word_list(
        "name",
        16384,
        &[
            (0, "Fusco"),
            (3, "Egidius"),
            (238, "Purdy"),
            (1160, "Lehet"),
            (2047, "Concordia"),
            (2462, "Barbe"),
            (3628, "Pardew"),
            (4095, "Antone"),
            (14562, "Kask"),
            (15903, "Caravette"),
            (16383, "Katharyn"),
        ],
    )
}

fn personal_nouns() -> Vec<String> {
    word_list("noun", 8192, &[(0, "muleteer"), (3021, "loki"), (8191, "minister")])
}

fn places() -> Vec<String> {
    word_list("place", 8192, &[(0, "Katy"), (1428, "Manteo"), (8191, "Mosinee")])
}

fn verbs() -> Vec<String> {
    word_list(
        "verb",
        1024,
        &[(0, "suspended"), (46, "filled"), (841, "observed"), (1023, "trotted")],
    )
}

fn adjectives() -> Vec<String> {
    word_list("adjective", 256, &[(0, "mysterious"), (14, "calm"), (48, "hard"), (63, "slow")])
}

fn animals() -> Vec<String> {
    word_list("animal", 128, &[(0, "rooks"), (7, "hawks"), (122, "herons"), (127, "hogs")])
}

fn lexicon() -> Lexicon {
    Lexicon::new(names(), personal_nouns(), places(), verbs(), adjectives(), animals()).unwrap()
}

#[test]
fn test_generate() {
    let uuid = Uuid::parse_str("0ee001c7-12f3-4b29-a4cc-f48838b3587a").unwrap();

    let g = generate_from(&lexicon(), uuid);
    assert_eq!(
        g,
        "Purdy Fusco Kask the loki of Manteo observed Barbe Lehet Pardew and 26 hard herons"
    );
}

#[test]
fn test_short() {
    let uuid = Uuid::parse_str("0ee001c7-12f3-4b29-a4cc-f48838b3587a").unwrap();

    let s = short_from(&lexicon(), uuid);
    assert_eq!(s, "Egidius filled by 0 calm hawks");
}

#[test]
fn test_inverse() {
    let lexicon = lexicon();
    let uuid = Uuid::parse_str("0ee001c7-12f3-4b29-a4cc-f48838b3587a").unwrap();
    let i = generate_inverse(&lexicon, &generate_from(&lexicon, uuid)).unwrap();
    assert_eq!(i, uuid);
}

#[test]
fn test_compatibility() {
    let lexicon = lexicon();
    let uuid = Uuid::parse_str("00000000-0000-0000-0000-000000000000").unwrap();
    let zeroed = generate_from(&lexicon, uuid);
    assert_eq!(zeroed, "Fusco Fusco Fusco the muleteer of Katy suspended Fusco Fusco Fusco and 0 mysterious rooks");

    let uuid = Uuid::parse_str("ffffffff-ffff-ffff-ffff-ffffffffffff").unwrap();
    let full = generate_from(&lexicon, uuid);
    assert_eq!(full, "Antone Concordia Katharyn the minister of Mosinee trotted Antone Concordia Katharyn and 31 slow hogs");

    let uuid = Uuid::parse_str("FFFFFFF0-FFFF-FFFF-FFFF-FFFFFFFFFFFF").unwrap();
    let strange = generate_from(&lexicon, uuid);
    assert_eq!(strange, "Antone Concordia Caravette the minister of Mosinee trotted Antone Concordia Katharyn and 31 slow hogs");
}

#[test]
fn test_bad_inverse() {
    let lexicon = lexicon();
    let sentence = "109812 ???./ ` the muleteer of Katy suspended Fusco Fusco Fusco and 0 mysterious rooks";
    let rev = generate_inverse(&lexicon, sentence);
    assert!(rev.is_err());

    let sentence = "109812 ???./\0zdqdqz";
    let rev = generate_inverse(&lexicon, sentence);
    assert!(rev.is_err());
}

#[test]
fn bad_inverse_names_the_fault() {
    let lexicon = lexicon();
    let sentence = "109812 ???./ ` the muleteer of Katy suspended Fusco Fusco Fusco and 0 mysterious rooks";
    assert_eq!(generate_inverse(&lexicon, sentence), Err(DecodeError::UnknownWord(0)));
    assert_eq!(
        generate_inverse(&lexicon, "109812 ???./\0zdqdqz"),
        Err(DecodeError::TooFewTokens)
    );
}

#[test]
fn round_trip_of_boundary_tokens() {
    let lexicon = lexicon();
    for text in [
        "00000000-0000-0000-0000-000000000000",
        "ffffffff-ffff-ffff-ffff-ffffffffffff",
        "FFFFFFF0-FFFF-FFFF-FFFF-FFFFFFFFFFFF",
        "0ee001c7-12f3-4b29-a4cc-f48838b3587a",
        "80000000-0000-0000-0000-000000000001",
    ] {
        let uuid = Uuid::parse_str(text).unwrap();
        let sentence = generate_from(&lexicon, uuid);
        assert_eq!(generate_inverse(&lexicon, &sentence), Ok(uuid));
    }
}

#[test]
fn round_trip_of_many_tokens() {
    let lexicon = lexicon();
    let mut state: u128 = 0x0123_4567_89ab_cdef_0f1e_2d3c_4b5a_6978;
    for _ in 0..200 {
        state = state.wrapping_mul(0x2545_f491_4f6c_dd1d_0000_0000_0000_0001).wrapping_add(0x9e37_79b9_7f4a_7c15);
        let uuid = Uuid::from_u128(state);
        let sentence = generate_from(&lexicon, uuid);
        assert_eq!(sentence.split(' ').count(), 15);
        assert_eq!(generate_inverse(&lexicon, &sentence), Ok(uuid));
    }
}

#[test]
fn inverse_reads_filler_words_by_index() {
    let lexicon = lexicon();
    let sentence = "name1 name2 name4 the noun5 of place6 verb7 name8 name9 name10 and 11 adjective12 animal13";
    let uuid = generate_inverse(&lexicon, sentence).unwrap();
    // 12 + 11 + 14 + 13 + 13 + 10 + 12 + 11 + 14 + 5 + 6 + 7 bits, front to back
    let widths = [12u32, 11, 14, 13, 13, 10, 12, 11, 14, 5, 6, 7];
    let segments = [1u128, 2, 4, 5, 6, 7, 8, 9, 10, 11, 12, 13];
    let mut value: u128 = 0;
    for (width, segment) in widths.iter().zip(segments.iter()) {
        value = (value << width) | segment;
    }
    assert_eq!(uuid, Uuid::from_u128(value));
    assert_eq!(generate_from(&lexicon, uuid), sentence);
}

#[test]
fn generate_from_is_deterministic() {
    let lexicon = lexicon();
    let uuid = Uuid::parse_str("0ee001c7-12f3-4b29-a4cc-f48838b3587a").unwrap();
    assert_eq!(generate_from(&lexicon, uuid), generate_from(&lexicon, uuid));
    assert_eq!(short_from(&lexicon, uuid), short_from(&lexicon, uuid));
}

#[test]
fn short_reads_the_leading_32_bits_only() {
    let lexicon = lexicon();
    let a = Uuid::parse_str("0ee001c7-12f3-4b29-a4cc-f48838b3587a").unwrap();
    let b = Uuid::parse_str("0ee001c7-ffff-ffff-ffff-ffffffffffff").unwrap();
    let c = Uuid::parse_str("0ee001c6-12f3-4b29-a4cc-f48838b3587a").unwrap();
    assert_eq!(short_from(&lexicon, a), short_from(&lexicon, b));
    assert_eq!(short_from(&lexicon, a), "Egidius filled by 0 calm hawks");
    assert_ne!(short_from(&lexicon, a), short_from(&lexicon, c));
}

#[test]
fn short_of_boundary_tokens() {
    let lexicon = lexicon();
    let zero = Uuid::parse_str("00000000-0000-0000-0000-000000000000").unwrap();
    assert_eq!(short_from(&lexicon, zero), "Fusco suspended by 0 mysterious rooks");
    let ones = Uuid::parse_str("ffffffff-ffff-ffff-ffff-ffffffffffff").unwrap();
    assert_eq!(short_from(&lexicon, ones), "name63 verb63 by 127 adjective255 animal31");
}

#[test]
fn generate_gives_a_sentence_that_reads_back() {
    let lexicon = lexicon();
    let sentence = generate(&lexicon);
    let tokens: Vec<&str> = sentence.split(' ').collect();
    assert_eq!(tokens.len(), 15);
    assert_eq!(tokens[3], "the");
    assert_eq!(tokens[5], "of");
    assert_eq!(tokens[11], "and");
    let uuid = generate_inverse(&lexicon, &sentence).unwrap();
    assert_eq!(generate_from(&lexicon, uuid), sentence);
    assert_eq!(uuid.get_version_num(), 4);
}

#[test]
fn short_gives_a_short_sentence() {
    let lexicon = lexicon();
    let sentence = short(&lexicon);
    let tokens: Vec<&str> = sentence.split(' ').collect();
    assert_eq!(tokens.len(), 6);
    assert_eq!(tokens[2], "by");
    assert!(tokens[3].parse::<u16>().unwrap() < 128);
}

#[test]
fn inverse_rejects_too_few_tokens() {
    let lexicon = lexicon();
    assert_eq!(generate_inverse(&lexicon, ""), Err(DecodeError::TooFewTokens));
    assert_eq!(
        generate_inverse(
            &lexicon,
            "Fusco Fusco Fusco the muleteer of Katy suspended Fusco Fusco Fusco and 0 mysterious"
        ),
        Err(DecodeError::TooFewTokens)
    );
}

#[test]
fn inverse_rejects_unknown_words() {
    let lexicon = lexicon();
    assert_eq!(
        generate_inverse(
            &lexicon,
            "Fusco Fusco Fusco the muleteer of Katy suspended Fusco Fusco Fusco and 0 mysterious Rooks"
        ),
        Err(DecodeError::UnknownWord(14))
    );
    assert_eq!(
        generate_inverse(
            &lexicon,
            "Fusco Fusco Fusco the Katy of Katy suspended Fusco Fusco Fusco and 0 mysterious rooks"
        ),
        Err(DecodeError::UnknownWord(4))
    );
    // two spaces in a row hold an empty token, which moves the rest along
    assert_eq!(
        generate_inverse(
            &lexicon,
            "Fusco  Fusco Fusco the muleteer of Katy suspended Fusco Fusco Fusco and 0 mysterious rooks"
        ),
        Err(DecodeError::UnknownWord(1))
    );
}

#[test]
fn inverse_rejects_words_beyond_the_segment() {
    let lexicon = lexicon();
    // the second name holds eleven bits: name2047 is its last word
    assert_eq!(
        generate_inverse(
            &lexicon,
            "Fusco name2048 Fusco the muleteer of Katy suspended Fusco Fusco Fusco and 0 mysterious rooks"
        ),
        Err(DecodeError::UnknownWord(1))
    );
    // the adjective of the long sentence holds six bits
    assert_eq!(
        generate_inverse(
            &lexicon,
            "Fusco Fusco Fusco the muleteer of Katy suspended Fusco Fusco Fusco and 0 adjective64 rooks"
        ),
        Err(DecodeError::UnknownWord(13))
    );
}

#[test]
fn inverse_rejects_bad_numbers() {
    let lexicon = lexicon();
    for number in ["", "x", "-1", "3.0", "1e1", "32", "65536", "99999999999999999999", "+", "0x1f"] {
        let sentence = format!(
            "Fusco Fusco Fusco the muleteer of Katy suspended Fusco Fusco Fusco and {} mysterious rooks",
            number
        );
        assert_eq!(
            generate_inverse(&lexicon, &sentence),
            Err(DecodeError::MalformedNumeral(12)),
            "{}",
            number
        );
    }
}

#[test]
fn inverse_reads_numbers_as_the_standard_parser_does() {
    let lexicon = lexicon();
    let expected = Uuid::from_u128(31 << 13);
    for number in ["31", "+31", "031", "00000000000000000000000031"] {
        let sentence = format!(
            "Fusco Fusco Fusco the muleteer of Katy suspended Fusco Fusco Fusco and {} mysterious rooks",
            number
        );
        assert_eq!(generate_inverse(&lexicon, &sentence), Ok(expected), "{}", number);
    }
}

#[test]
fn inverse_ignores_connectives_and_what_follows() {
    let lexicon = lexicon();
    let zero = Uuid::from_u128(0);
    assert_eq!(
        generate_inverse(
            &lexicon,
            "Fusco Fusco Fusco a muleteer from Katy suspended Fusco Fusco Fusco with 0 mysterious rooks and more"
        ),
        Ok(zero)
    );
}

#[test]
fn first_fault_decides_the_error() {
    let lexicon = lexicon();
    assert_eq!(
        generate_inverse(
            &lexicon,
            "Fusco Fusco Fusco the muleteer of Katy suspended Fusco Fusco Fusco and many mysterious dragons"
        ),
        Err(DecodeError::MalformedNumeral(12))
    );
    assert_eq!(
        generate_inverse(
            &lexicon,
            "Fusco Fusco Fusco the muleteer of Katy jumped Fusco Fusco Fusco and many mysterious dragons"
        ),
        Err(DecodeError::UnknownWord(7))
    );
}

#[test]
fn lexicon_rejects_short_lists() {
    let mut few = animals();
    few.pop();
    assert_eq!(
        Lexicon::new(names(), personal_nouns(), places(), verbs(), adjectives(), few).err(),
        Some(LexiconError::TooFew(CategoryId::Animals))
    );
    assert_eq!(
        Lexicon::new(Vec::new(), Vec::new(), places(), verbs(), adjectives(), animals()).err(),
        Some(LexiconError::TooFew(CategoryId::Names))
    );
    let mut few = adjectives();
    few.truncate(255);
    assert_eq!(
        Lexicon::new(names(), personal_nouns(), places(), verbs(), few, Vec::new()).err(),
        Some(LexiconError::TooFew(CategoryId::Adjectives))
    );
}

#[test]
fn lexicon_rejects_invalid_lists() {
    let mut twice = verbs();
    twice[1000] = "filled".to_string();
    assert_eq!(
        Lexicon::new(names(), personal_nouns(), places(), twice, adjectives(), animals()).err(),
        Some(LexiconError::Invalid(CategoryId::Verbs))
    );
    let mut spaced = places();
    spaced[8191] = "New York".to_string();
    assert_eq!(
        Lexicon::new(names(), personal_nouns(), spaced, verbs(), adjectives(), animals()).err(),
        Some(LexiconError::Invalid(CategoryId::Places))
    );
    let mut spaced = personal_nouns();
    spaced[17] = "that one".to_string();
    let mut few = places();
    few.pop();
    assert_eq!(
        Lexicon::new(names(), spaced, few, verbs(), adjectives(), animals()).err(),
        Some(LexiconError::Invalid(CategoryId::PersonalNouns))
    );
}

#[test]
fn lexicon_hands_out_its_categories() {
    let lexicon = lexicon();
    assert_eq!(lexicon.category(CategoryId::Names).len(), 16384);
    assert_eq!(lexicon.category(CategoryId::PersonalNouns).word_at(3021), "loki");
    assert_eq!(lexicon.category(CategoryId::Places).index_of("Manteo"), Some(1428));
    assert_eq!(lexicon.category(CategoryId::Verbs).index_of("Manteo"), None);
    assert_eq!(lexicon.category(CategoryId::Adjectives).word_at(255), "adjective255");
    assert_eq!(lexicon.category(CategoryId::Animals).index_of("hogs"), Some(127));
}
