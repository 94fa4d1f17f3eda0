use anagram::alphabet::AlphabetTable;
use anagram::fingerprint::EncodeError;
use anagram::lookup::{begin_lookup, next_step, store_key, LookupError, LookupEvent, LookupStep};

fn table() -> AlphabetTable {
    let mut t = AlphabetTable::new();
    let primes = [2u64, 3, 5, 7, 11, 13, 17, 19, 23, 29, 31, 37, 41, 43, 47, 53, 59, 61, 67, 71, 73, 79, 83, 89, 97, 101];
    let entries: Vec<(String, u64)> = "abcdefghijklmnopqrstuvwxyz"
        .chars()
        .zip(primes.iter())
        .map(|(c, p)| (c.to_string(), *p))
        .collect();
    t.add_language(String::from("en"), entries).unwrap();
    t
}

fn key_of(step: &LookupStep) -> String {
    match step {
        LookupStep::AcquireConnection { key } => key.clone(),
        LookupStep::FetchMembers { key } => key.clone(),
        LookupStep::Finished(_) => panic!("lookup already finished"),
    }
}

#[test]
fn store_key_is_language_colon_decimal() {
    assert_eq!(store_key(&String::from("en"), 43897927150), "en:43897927150");
    assert_eq!(store_key(&String::from("sl"), 0), "sl:0");
    assert_eq!(store_key(&String::from("en"), 1), "en:1");
    assert_eq!(
        store_key(&String::from("en"), u64::MAX),
        "en:18446744073709551615"
    );
}

#[test]
fn valid_input_asks_for_a_connection() {
    let step = begin_lookup(&table(), &String::from("en"), &String::from("democracy"));
    assert!(matches!(step, LookupStep::AcquireConnection { .. }));
    assert_eq!(key_of(&step), "en:43897927150");
}

#[test]
fn bad_input_finishes_before_any_store_work() {
    let step = begin_lookup(&table(), &String::from("en"), &String::from("te_st"));
    match step {
        LookupStep::Finished(Err(e)) => {
            assert_eq!(e, LookupError::BadInput(EncodeError::InvalidCharacter));
            assert!(e.is_client_error());
            assert_eq!(e.message(), "Invalid characters provided");
        }
        _ => panic!("expected a finished lookup"),
    }
    let step = begin_lookup(&table(), &String::from("xx"), &String::from("test"));
    assert!(matches!(
        step,
        LookupStep::Finished(Err(LookupError::BadInput(EncodeError::UnknownLanguage)))
    ));
}

#[test]
fn missing_key_gives_an_empty_result() {
    let step = begin_lookup(&table(), &String::from("en"), &String::from("xyzzy"));
    let step = next_step(step, LookupEvent::Acquired);
    assert!(matches!(step, LookupStep::FetchMembers { .. }));
    match next_step(step, LookupEvent::Fetched(Vec::new())) {
        LookupStep::Finished(Ok(words)) => assert!(words.is_empty()),
        _ => panic!("expected an empty result"),
    }
}

#[test]
fn digits_in_the_input_are_refused_before_the_store() {
    let step = begin_lookup(&table(), &String::from("en"), &String::from("xyzzy123"));
    assert!(matches!(
        step,
        LookupStep::Finished(Err(LookupError::BadInput(EncodeError::InvalidCharacter)))
    ));
}

#[test]
fn fetched_members_are_the_result() {
    let step = begin_lookup(&table(), &String::from("en"), &String::from("listen"));
    let step = next_step(step, LookupEvent::Acquired);
    let words = vec![String::from("silent"), String::from("enlist")];
    match next_step(step, LookupEvent::Fetched(words.clone())) {
        LookupStep::Finished(Ok(found)) => assert_eq!(found, words),
        _ => panic!("expected the fetched words"),
    }
}

#[test]
fn pool_timeout_is_pool_exhausted_without_fetch() {
    let step = begin_lookup(&table(), &String::from("en"), &String::from("listen"));
    match next_step(step, LookupEvent::AcquireTimedOut) {
        LookupStep::Finished(Err(e)) => {
            assert_eq!(e, LookupError::PoolExhausted);
            assert!(!e.is_client_error());
            assert_eq!(
                e.message(),
                "Could not obtain a connection from the connection pool"
            );
        }
        _ => panic!("expected PoolExhausted"),
    }
}

#[test]
fn failed_fetch_is_a_generic_backend_error() {
    let step = begin_lookup(&table(), &String::from("en"), &String::from("listen"));
    let step = next_step(step, LookupEvent::Acquired);
    match next_step(step, LookupEvent::FetchFailed) {
        LookupStep::Finished(Err(e)) => {
            assert_eq!(e, LookupError::BackendFetchFailed);
            assert!(!e.is_client_error());
            assert_eq!(e.message(), "An error occured");
        }
        _ => panic!("expected BackendFetchFailed"),
    }
}

#[test]
fn event_that_does_not_answer_the_step_changes_nothing() {
    let step = begin_lookup(&table(), &String::from("en"), &String::from("listen"));
    let step = next_step(step, LookupEvent::FetchFailed);
    assert!(matches!(step, LookupStep::AcquireConnection { .. }));
    assert_eq!(key_of(&step), "en:1914801911");
}
