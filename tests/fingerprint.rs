use anagram::alphabet::{AlphabetTable, TableError};
use anagram::fingerprint::{anagram_hash, EncodeError, MAX_LETTERS};

const PRIMES: [u64; 30] = [
    2, 3, 5, 7, 11, 13, 17, 19, 23, 29, 31, 37, 41, 43, 47, 53, 59, 61, 67, 71, 73, 79, 83, 89, 97,
    101, 103, 107, 109, 113,
];

fn entries(letters: &str) -> Vec<(String, u64)> {
    letters
        .chars()
        .zip(PRIMES.iter())
        .map(|(c, p)| (c.to_string(), *p))
        .collect()
}

fn table() -> AlphabetTable {
    let mut t = AlphabetTable::new();
    t.add_language(String::from("en"), entries("abcdefghijklmnopqrstuvwxyz"))
        .unwrap();
    t.add_language(String::from("sl"), entries("abcčdefghijklmnopqrsštuvwxyzž"))
        .unwrap();
    t
}

fn hash(letters: &str, lang: &str) -> Result<u64, EncodeError> {
    anagram_hash(&table(), &String::from(letters), &String::from(lang))
}

#[test]
fn hashcalc_valid() {
    let t = table();
    assert_eq!(
        1,
        anagram_hash(&t, &String::from(""), &String::from("en")).unwrap()
    );

    assert_eq!(
        43897927150,
        anagram_hash(&t, &String::from("democracy"), &String::from("en")).unwrap()
    );
    assert_eq!(
        209300080460348,
        anagram_hash(&t, &String::from("IMAgination"), &String::from("en")).unwrap()
    );

    assert_eq!(
        81744359,
        anagram_hash(&t, &String::from("kisik"), &String::from("sl")).unwrap()
    );
    assert_eq!(
        14526017960740,
        anagram_hash(&t, &String::from("DEMokracija"), &String::from("sl")).unwrap()
    );
}

#[test]
fn hashcalc_invalid_chars() {
    let t = table();
    assert_eq!(
        "Invalid characters provided",
        anagram_hash(&t, &String::from("1234"), &String::from("en"))
            .unwrap_err()
            .message()
    );

    assert_eq!(
        "Invalid characters provided",
        anagram_hash(&t, &String::from("te_st"), &String::from("en"))
            .unwrap_err()
            .message()
    );

    assert_eq!(
        "Invalid characters provided",
        anagram_hash(&t, &String::from("te!()=st"), &String::from("en"))
            .unwrap_err()
            .message()
    );
}

#[test]
fn hashcalc_invalid_lang() {
    let t = table();
    assert_eq!(
        "Invalid language specified",
        anagram_hash(&t, &String::from("test"), &String::from("xx"))
            .unwrap_err()
            .message()
    );
}

#[test]
fn empty_input_is_one_in_every_language() {
    assert_eq!(hash("", "en"), Ok(1));
    assert_eq!(hash("", "sl"), Ok(1));
}

#[test]
fn permutations_and_case_share_a_fingerprint() {
    assert_eq!(hash("listen", "en"), hash("silent", "en"));
    assert_eq!(hash("Listen", "en"), hash("enLIST", "en"));
    assert_eq!(hash("IMAgination", "en"), hash("imagination", "en"));
}

#[test]
fn different_multisets_differ() {
    assert_ne!(hash("ab", "en"), hash("aab", "en"));
    assert_ne!(hash("abc", "en"), hash("abd", "en"));
    assert_eq!(hash("ab", "en"), Ok(6));
    assert_eq!(hash("aab", "en"), Ok(12));
}

#[test]
fn too_long_input_is_refused_whatever_its_content() {
    let long: String = "a".repeat(MAX_LETTERS + 1);
    assert_eq!(hash(&long, "en"), Err(EncodeError::TooManyLetters));
    let long_invalid: String = "1".repeat(MAX_LETTERS + 1);
    assert_eq!(hash(&long_invalid, "xx"), Err(EncodeError::TooManyLetters));
    assert_eq!(
        EncodeError::TooManyLetters.message(),
        "Too many letters supplied"
    );
}

#[test]
fn input_at_the_length_bound_is_not_too_long() {
    let at_bound: String = "a".repeat(MAX_LETTERS);
    assert_ne!(hash(&at_bound, "en"), Err(EncodeError::TooManyLetters));
}

#[test]
fn unknown_language_comes_before_characters() {
    assert_eq!(hash("1234", "xx"), Err(EncodeError::UnknownLanguage));
    assert_eq!(hash("", "xx"), Err(EncodeError::UnknownLanguage));
}

#[test]
fn whitespace_and_symbols_are_invalid() {
    assert_eq!(hash("te st", "en"), Err(EncodeError::InvalidCharacter));
    assert_eq!(hash("č", "en"), Err(EncodeError::InvalidCharacter));
    assert_eq!(hash("č", "sl"), Ok(7));
}

#[test]
fn product_past_64_bits_is_an_overflow() {
    // 101^10 exceeds 2^64; 'z' is 101 in the English table.
    assert_eq!(hash(&"z".repeat(10), "en"), Err(EncodeError::Overflow));
    assert_eq!(hash(&"z".repeat(9), "en"), Ok(101u64.pow(9)));
    // An invalid character still wins over an overflow before it.
    let mut s = "z".repeat(20);
    s.push('1');
    assert_eq!(hash(&s, "en"), Err(EncodeError::InvalidCharacter));
}

#[test]
fn table_refuses_bad_configuration() {
    let mut t = table();
    assert_eq!(
        t.add_language(String::from("en"), entries("ab")),
        Err(TableError::DuplicateLanguage)
    );
    assert_eq!(
        t.add_language(String::from("de"), vec![(String::from("ab"), 2)]),
        Err(TableError::NotASingleLetter)
    );
    assert_eq!(
        t.add_language(String::from("de"), vec![(String::from(""), 2)]),
        Err(TableError::NotASingleLetter)
    );
    assert_eq!(
        t.add_language(
            String::from("de"),
            vec![(String::from("a"), 2), (String::from("b"), 9)]
        ),
        Err(TableError::NotPrime)
    );
    assert_eq!(
        t.add_language(String::from("de"), vec![(String::from("a"), 1)]),
        Err(TableError::NotPrime)
    );
    assert_eq!(
        t.add_language(
            String::from("de"),
            vec![(String::from("a"), 2), (String::from("a"), 3)]
        ),
        Err(TableError::DuplicateLetter)
    );
    assert_eq!(
        t.add_language(
            String::from("de"),
            vec![(String::from("a"), 2), (String::from("b"), 2)]
        ),
        Err(TableError::DuplicatePrime)
    );
    assert_eq!(hash("ab", "de"), Err(EncodeError::UnknownLanguage));
    assert_eq!(
        t.add_language(
            String::from("de"),
            vec![
                (String::from("a"), 4294967311),
                (String::from("b"), 4294967357),
                (String::from("ß"), 3)
            ]
        ),
        Ok(())
    );
    assert_eq!(
        anagram_hash(&t, &String::from("ßAB"), &String::from("de")),
        Err(EncodeError::Overflow)
    );
    assert_eq!(
        anagram_hash(&t, &String::from("ß"), &String::from("de")),
        Ok(3)
    );
    assert_eq!(
        anagram_hash(&t, &String::from("ßa"), &String::from("de")),
        Ok(3 * 4294967311)
    );
}
