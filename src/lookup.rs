use vstd::prelude::*;
use crate::alphabet::AlphabetTable;
use crate::fingerprint::{anagram_hash, encode_spec, EncodeError};

verus! {

/// The character of decimal digit `d`.
pub open spec fn digit_char(d: nat) -> char {
    seq!['0', '1', '2', '3', '4', '5', '6', '7', '8', '9'][d as int]
}

/// `n` written in decimal, without leading zeros.
pub open spec fn decimal(n: nat) -> Seq<char>
    decreases n,
{
    if n < 10 {
        seq![digit_char(n)]
    } else {
        decimal(n / 10).push(digit_char(n % 10))
    }
}

/// The store key of the words with fingerprint `fingerprint` in language `lang`.
pub open spec fn store_key_spec(lang: Seq<char>, fingerprint: u64) -> Seq<char> {
    lang + seq![':'] + decimal(fingerprint as nat)
}

fn digit_str(d: u64) -> (r: &'static str)
    requires
        d < 10,
    ensures
        r@ == seq![digit_char(d as nat)],
{
    proof {
        reveal_strlit("0");
        reveal_strlit("1");
        reveal_strlit("2");
        reveal_strlit("3");
        reveal_strlit("4");
        reveal_strlit("5");
        reveal_strlit("6");
        reveal_strlit("7");
        reveal_strlit("8");
        reveal_strlit("9");
    }
    let r = match d {
        0 => "0",
        1 => "1",
        2 => "2",
        3 => "3",
        4 => "4",
        5 => "5",
        6 => "6",
        7 => "7",
        8 => "8",
        _ => "9",
    };
    assert(r@ =~= seq![digit_char(d as nat)]);
    r
}

fn append_decimal(out: &mut String, n: u64)
    ensures
        final(out)@ == old(out)@ + decimal(n as nat),
    decreases n,
{
    if n >= 10 {
        append_decimal(out, n / 10);
    }
    out.append(digit_str(n % 10));
    assert(final(out)@ =~= old(out)@ + decimal(n as nat));
}

/// The store key `"<lang>:<fingerprint in decimal>"`.
pub fn store_key(lang: &String, fingerprint: u64) -> (r: String)
    ensures
        r@ == store_key_spec(lang@, fingerprint),
{
    let mut key = lang.clone();
    key.append(":");
    append_decimal(&mut key, fingerprint);
    proof {
        reveal_strlit(":");
    }
    assert(key@ =~= store_key_spec(lang@, fingerprint));
    key
}


/// Why a lookup failed.
#[derive(Clone, Copy, Debug, PartialEq, Eq, Structural)]
pub enum LookupError {
    /// The input cannot be fingerprinted; the store was not contacted.
    BadInput(EncodeError),
    /// No store connection could be had within the acquisition timeout.
    PoolExhausted,
    /// The store failed the fetch, or answered with something that is not a set of words.
    BackendFetchFailed,
}

impl LookupError {
    /// The error is the client's (bad input) rather than the server's.
    pub fn is_client_error(&self) -> (r: bool)
        ensures
            r == (self is BadInput),
    {
        match self {
            LookupError::BadInput(_) => true,
            _ => false,
        }
    }

    /// The message reported to the client; store failures stay generic.
    pub fn message(&self) -> (r: String)
        ensures
            r@ == match self {
                LookupError::BadInput(e) => match e {
                    EncodeError::TooManyLetters => "Too many letters supplied"@,
                    EncodeError::UnknownLanguage => "Invalid language specified"@,
                    EncodeError::InvalidCharacter => "Invalid characters provided"@,
                    EncodeError::Overflow => "Letters give a fingerprint that is too large"@,
                },
                LookupError::PoolExhausted => "Could not obtain a connection from the connection pool"@,
                LookupError::BackendFetchFailed => "An error occured"@,
            },
    {
        match self {
            LookupError::BadInput(e) => e.message(),
            LookupError::PoolExhausted => String::from_str("Could not obtain a connection from the connection pool"),
            LookupError::BackendFetchFailed => String::from_str("An error occured"),
        }
    }
}

/// Where a lookup stands: the store work its caller must do next, or the outcome.
pub enum LookupStep {
    /// Take a connection from the pool, waiting no longer than its timeout.
    AcquireConnection { key: String },
    /// With the connection just taken, fetch the members of set `key`, then release it.
    FetchMembers { key: String },
    /// The lookup is over.
    Finished(Result<Vec<String>, LookupError>),
}

/// What the caller observed while doing the store work of a step.
pub enum LookupEvent {
    Acquired,
    AcquireTimedOut,
    /// The members of the set; an absent key is an empty set.
    Fetched(Vec<String>),
    FetchFailed,
}

/// Starts a lookup of the anagrams of `letters` in language `lang`: input
/// that cannot be fingerprinted ends it at once, before any store work;
/// otherwise a connection is asked for, for the key of the fingerprint.
pub fn begin_lookup(table: &AlphabetTable, lang: &String, letters: &String) -> (r: LookupStep)
    requires
        table.wf(),
    ensures
        match encode_spec(table@, lang@, letters@) {
            Err(e) => r == LookupStep::Finished(Err(LookupError::BadInput(e))),
            Ok(h) => r matches LookupStep::AcquireConnection { key } && key@ == store_key_spec(lang@, h),
        },
{
    match anagram_hash(table, letters, lang) {
        Err(e) => LookupStep::Finished(Err(LookupError::BadInput(e))),
        Ok(h) => LookupStep::AcquireConnection { key: store_key(lang, h) },
    }
}

/// The step after `step` given what was observed: a taken connection leads to
/// the fetch of the same key, a timed-out one to `PoolExhausted` with no fetch;
/// fetched members are the result as they are (none for an absent key), a
/// failed fetch is `BackendFetchFailed`. An event that does not answer the
/// step leaves it as it is.
pub fn next_step(step: LookupStep, event: LookupEvent) -> (r: LookupStep)
    ensures
        match (step, event) {
            (LookupStep::AcquireConnection { key }, LookupEvent::Acquired) => r
                == LookupStep::FetchMembers { key },
            (LookupStep::AcquireConnection { .. }, LookupEvent::AcquireTimedOut) => r
                == LookupStep::Finished(Err(LookupError::PoolExhausted)),
            (LookupStep::FetchMembers { .. }, LookupEvent::Fetched(members)) => r
                == LookupStep::Finished(Ok(members)),
            (LookupStep::FetchMembers { .. }, LookupEvent::FetchFailed) => r
                == LookupStep::Finished(Err(LookupError::BackendFetchFailed)),
            _ => r == step,
        },
{
    match (step, event) {
        (LookupStep::AcquireConnection { key }, LookupEvent::Acquired) => LookupStep::FetchMembers { key },
        (LookupStep::AcquireConnection { .. }, LookupEvent::AcquireTimedOut) => LookupStep::Finished(
            Err(LookupError::PoolExhausted),
        ),
        (LookupStep::FetchMembers { .. }, LookupEvent::Fetched(members)) => LookupStep::Finished(Ok(members)),
        (LookupStep::FetchMembers { .. }, LookupEvent::FetchFailed) => LookupStep::Finished(
            Err(LookupError::BackendFetchFailed),
        ),
        (step, _) => step,
    }
}

} // verus!
