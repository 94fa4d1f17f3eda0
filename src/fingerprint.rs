use vstd::prelude::*;
use crate::alphabet::{alphabet_wf, prime_of, table_lookup, table_wf, AlphabetTable, Language, LetterPrimes};
use crate::primes::{is_prime, lemma_euclid, lemma_prime_divisor};

verus! {

/// The longest input, in characters, that is fingerprinted.
pub const MAX_LETTERS: usize = 100;

/// Why an input could not be fingerprinted.
#[derive(Clone, Copy, Debug, PartialEq, Eq, Structural)]
pub enum EncodeError {
    TooManyLetters,
    UnknownLanguage,
    InvalidCharacter,
    /// The product of the letters' primes does not fit in 64 bits.
    Overflow,
}

impl EncodeError {
    /// The message reported to a client for this error.
    pub fn message(&self) -> (r: String)
        ensures
            r@ == match self {
                EncodeError::TooManyLetters => "Too many letters supplied"@,
                EncodeError::UnknownLanguage => "Invalid language specified"@,
                EncodeError::InvalidCharacter => "Invalid characters provided"@,
                EncodeError::Overflow => "Letters give a fingerprint that is too large"@,
            },
    {
        match self {
            EncodeError::TooManyLetters => String::from_str("Too many letters supplied"),
            EncodeError::UnknownLanguage => String::from_str("Invalid language specified"),
            EncodeError::InvalidCharacter => String::from_str("Invalid characters provided"),
            EncodeError::Overflow => String::from_str("Letters give a fingerprint that is too large"),
        }
    }
}

/// What `str::to_lowercase` makes of a string.
pub uninterp spec fn lower_of(s: Seq<char>) -> Seq<char>;

/// Relies on `str::to_lowercase` for case folding: its result depends on the
/// characters alone, and the empty string stays empty.
#[verifier::external_body]
fn lowercase(s: &String) -> (r: Vec<char>)
    ensures
        r@ == lower_of(s@),
        s@.len() == 0 ==> r@.len() == 0,
{
    s.to_lowercase().chars().collect()
}

/// The prime of `c` in alphabet `a`, or zero where `a` lacks `c`.
pub open spec fn weight(a: LetterPrimes, c: char) -> int {
    match prime_of(a, c) {
        Some(p) => p as int,
        None => 0,
    }
}

/// Every character of `s` is a letter of alphabet `a`.
pub open spec fn in_alphabet(a: LetterPrimes, s: Seq<char>) -> bool {
    forall|i: int| 0 <= i < s.len() ==> (#[trigger] prime_of(a, s[i])) is Some
}

/// The product of the primes of the characters of `s`, with multiplicity.
pub open spec fn product(a: LetterPrimes, s: Seq<char>) -> int
    decreases s.len(),
{
    if s.len() == 0 {
        1
    } else {
        product(a, s.drop_last()) * weight(a, s.last())
    }
}

/// The fingerprint of the already case-folded characters `s` in alphabet `a`.
pub open spec fn fingerprint_spec(a: LetterPrimes, s: Seq<char>) -> Result<u64, EncodeError> {
    if !in_alphabet(a, s) {
        Err(EncodeError::InvalidCharacter)
    } else if product(a, s) > u64::MAX {
        Err(EncodeError::Overflow)
    } else {
        Ok(product(a, s) as u64)
    }
}

/// The fingerprint of `letters` in language `lang` of table `t`: the length
/// is checked first, then the language, then the case-folded characters.
pub open spec fn encode_spec(
    t: Seq<(Seq<char>, LetterPrimes)>,
    lang: Seq<char>,
    letters: Seq<char>,
) -> Result<u64, EncodeError> {
    if letters.len() > MAX_LETTERS {
        Err(EncodeError::TooManyLetters)
    } else {
        match table_lookup(t, lang) {
            None => Err(EncodeError::UnknownLanguage),
            Some(a) => fingerprint_spec(a, lower_of(letters)),
        }
    }
}

proof fn lemma_product_step(a: LetterPrimes, s: Seq<char>, i: int)
    requires
        0 <= i < s.len(),
    ensures
        product(a, s.take(i + 1)) == product(a, s.take(i)) * weight(a, s[i]),
{
    assert(s.take(i + 1).drop_last() =~= s.take(i));
}

impl Language {
    /// The fingerprint of the case-folded characters `folded`: the product of
    /// their primes, or why there is none.
    pub fn fingerprint(&self, folded: &Vec<char>) -> (r: Result<u64, EncodeError>)
        requires
            self.wf(),
        ensures
            r == fingerprint_spec(self@.1, folded@),
            folded@.len() == 0 ==> r == Ok::<u64, EncodeError>(1),
    {
        let ghost a = self@.1;
        let ghost s = folded@;
        let mut acc: u64 = 1;
        let mut overflow = false;
        let mut i: usize = 0;
        assert(s.take(0) =~= Seq::<char>::empty());
        while i < folded.len()
            invariant
                self.wf(),
                a == self@.1,
                s == folded@,
                i <= s.len(),
                forall|k: int| 0 <= k < i ==> (#[trigger] prime_of(a, s[k])) is Some,
                !overflow ==> acc == product(a, s.take(i as int)),
                overflow ==> product(a, s.take(i as int)) > u64::MAX,
            decreases s.len() - i,
        {
            let c = folded[i];
            let p = match self.prime_of(c) {
                Some(p) => p,
                None => {
                    assert(!in_alphabet(a, s));
                    return Err(EncodeError::InvalidCharacter);
                },
            };
            proof {
                lemma_product_step(a, s, i as int);
                let j = choose|j: int| 0 <= j < a.len() && #[trigger] a[j].0 == c;
                assert(crate::primes::is_prime(a[j].1 as nat));
                assert(p >= 2);
            }
            if overflow {
                assert(product(a, s.take(i as int)) * p > u64::MAX) by (nonlinear_arith)
                    requires product(a, s.take(i as int)) > u64::MAX, p >= 2;
            } else {
                match acc.checked_mul(p) {
                    Some(v) => acc = v,
                    None => overflow = true,
                }
            }
            i = i + 1;
        }
        assert(s.take(s.len() as int) =~= s);
        if overflow {
            Err(EncodeError::Overflow)
        } else {
            Ok(acc)
        }
    }
}

/// The fingerprint of `letters` in language `lang`: rejects more than
/// `MAX_LETTERS` characters, then an unknown language, then folds case and
/// multiplies the primes of the folded characters.
pub fn anagram_hash(table: &AlphabetTable, letters: &String, lang: &String) -> (r: Result<u64, EncodeError>)
    requires
        table.wf(),
    ensures
        r == encode_spec(table@, lang@, letters@),
        letters@.len() == 0 && table_lookup(table@, lang@) is Some ==> r == Ok::<u64, EncodeError>(1),
{
    if letters.as_str().unicode_len() > MAX_LETTERS {
        return Err(EncodeError::TooManyLetters);
    }
    let language = match table.get(lang) {
        Some(l) => l,
        None => return Err(EncodeError::UnknownLanguage),
    };
    let folded = lowercase(letters);
    language.fingerprint(&folded)
}


/// Taking out the character at `j` divides the product by its prime.
proof fn lemma_product_remove(a: LetterPrimes, s: Seq<char>, j: int)
    requires
        0 <= j < s.len(),
    ensures
        product(a, s) == weight(a, s[j]) * product(a, s.remove(j)),
    decreases s.len(),
{
    if j == s.len() - 1 {
        assert(s.remove(j) =~= s.drop_last());
        let x = product(a, s.drop_last());
        let w = weight(a, s[j]);
        assert(x * w == w * x) by (nonlinear_arith);
    } else {
        let d = s.drop_last();
        lemma_product_remove(a, d, j);
        assert(s.remove(j).drop_last() =~= d.remove(j));
        assert(s.remove(j).last() == s.last());
        assert(d[j] == s[j]);
        let x = weight(a, s[j]);
        let y = product(a, d.remove(j));
        let z = weight(a, s.last());
        assert(product(a, s) == product(a, d) * z);
        assert(product(a, s.remove(j)) == product(a, s.remove(j).drop_last()) * weight(a, s.remove(j).last()));
        assert(product(a, d) == x * y);
        assert(product(a, s.remove(j)) == y * z);
        assert((x * y) * z == x * (y * z)) by (nonlinear_arith);
    }
}

/// The product depends only on the multiset of characters.
proof fn lemma_product_multiset(a: LetterPrimes, s1: Seq<char>, s2: Seq<char>)
    requires
        s1.to_multiset() == s2.to_multiset(),
    ensures
        product(a, s1) == product(a, s2),
    decreases s1.len(),
{
    broadcast use vstd::seq_lib::group_to_multiset_ensures;
    if s1.len() == 0 {
        assert(s2.to_multiset().len() == 0);
        assert(s2 =~= Seq::<char>::empty());
    } else {
        let c = s1.last();
        let d = s1.drop_last();
        assert(s1 =~= d.push(c));
        assert(s2.to_multiset().count(c) > 0);
        assert(s2.contains(c));
        let j = choose|j: int| 0 <= j < s2.len() && s2[j] == c;
        assert(s2.remove(j).to_multiset() =~= d.to_multiset());
        lemma_product_multiset(a, d, s2.remove(j));
        lemma_product_remove(a, s2, j);
        let x = product(a, d);
        let w = weight(a, c);
        assert(product(a, s1) == x * w);
        assert(x * w == w * x) by (nonlinear_arith);
    }
}

/// Fingerprinting ignores order: two case-folded inputs with the same multiset
/// of characters get the same fingerprint, or the same error.
pub proof fn lemma_fingerprint_multiset(a: LetterPrimes, s1: Seq<char>, s2: Seq<char>)
    requires
        s1.to_multiset() == s2.to_multiset(),
    ensures
        fingerprint_spec(a, s1) == fingerprint_spec(a, s2),
{
    broadcast use vstd::seq_lib::group_to_multiset_ensures;
    lemma_product_multiset(a, s1, s2);
    assert(in_alphabet(a, s1) == in_alphabet(a, s2)) by {
        if in_alphabet(a, s1) {
            assert forall|i: int| 0 <= i < s2.len() implies (#[trigger] prime_of(a, s2[i])) is Some by {
                assert(s2.contains(s2[i]));
                assert(s2.to_multiset().count(s2[i]) > 0);
                assert(s1.to_multiset().count(s2[i]) > 0);
                assert(s1.contains(s2[i]));
                let k = choose|k: int| 0 <= k < s1.len() && s1[k] == s2[i];
                assert(prime_of(a, s1[k]) is Some);
            }
        }
        if in_alphabet(a, s2) {
            assert forall|i: int| 0 <= i < s1.len() implies (#[trigger] prime_of(a, s1[i])) is Some by {
                assert(s1.contains(s1[i]));
                assert(s1.to_multiset().count(s1[i]) > 0);
                assert(s2.to_multiset().count(s1[i]) > 0);
                assert(s2.contains(s1[i]));
                let k = choose|k: int| 0 <= k < s2.len() && s2[k] == s1[i];
                assert(prime_of(a, s2[k]) is Some);
            }
        }
    }
}

/// Anagrams share a fingerprint: two inputs whose case-folded characters form
/// the same multiset, and that are both within or both over the length bound,
/// are encoded alike in every language.
pub proof fn lemma_anagrams_encode_alike(
    t: Seq<(Seq<char>, LetterPrimes)>,
    lang: Seq<char>,
    letters1: Seq<char>,
    letters2: Seq<char>,
)
    requires
        lower_of(letters1).to_multiset() == lower_of(letters2).to_multiset(),
        (letters1.len() <= MAX_LETTERS) == (letters2.len() <= MAX_LETTERS),
    ensures
        encode_spec(t, lang, letters1) == encode_spec(t, lang, letters2),
{
    if let Some(a) = table_lookup(t, lang) {
        lemma_fingerprint_multiset(a, lower_of(letters1), lower_of(letters2));
    }
}

/// No characters, no factors: the fingerprint of the empty input is one.
pub proof fn lemma_empty_fingerprint(a: LetterPrimes)
    ensures
        fingerprint_spec(a, Seq::<char>::empty()) == Ok::<u64, EncodeError>(1),
{
}

/// An input longer than `MAX_LETTERS` is refused as too long, whatever its
/// characters and language.
pub proof fn lemma_too_long(t: Seq<(Seq<char>, LetterPrimes)>, lang: Seq<char>, letters: Seq<char>)
    requires
        letters.len() > MAX_LETTERS,
    ensures
        encode_spec(t, lang, letters) == Err::<u64, EncodeError>(EncodeError::TooManyLetters),
{
}

/// An input within the length bound in a language that the table lacks is
/// refused as an unknown language, whatever its characters.
pub proof fn lemma_unknown_language(t: Seq<(Seq<char>, LetterPrimes)>, lang: Seq<char>, letters: Seq<char>)
    requires
        letters.len() <= MAX_LETTERS,
        table_lookup(t, lang) is None,
    ensures
        encode_spec(t, lang, letters) == Err::<u64, EncodeError>(EncodeError::UnknownLanguage),
{
}

/// An input within the length bound whose case-folded form holds a character
/// outside the language's alphabet is refused as an invalid character.
pub proof fn lemma_foreign_character(
    t: Seq<(Seq<char>, LetterPrimes)>,
    lang: Seq<char>,
    letters: Seq<char>,
    i: int,
)
    requires
        letters.len() <= MAX_LETTERS,
        table_lookup(t, lang) is Some,
        0 <= i < lower_of(letters).len(),
        prime_of(table_lookup(t, lang)->0, lower_of(letters)[i]) is None,
    ensures
        encode_spec(t, lang, letters) == Err::<u64, EncodeError>(EncodeError::InvalidCharacter),
{
    let s = lower_of(letters);
    assert(!in_alphabet(table_lookup(t, lang)->0, s));
}


proof fn lemma_weight_prime(a: LetterPrimes, c: char)
    requires
        alphabet_wf(a),
        prime_of(a, c) is Some,
    ensures
        is_prime(weight(a, c) as nat),
        weight(a, c) >= 2,
{
    let i = choose|i: int| 0 <= i < a.len() && #[trigger] a[i].0 == c;
    assert(is_prime(a[i].1 as nat));
}

proof fn lemma_product_positive(a: LetterPrimes, s: Seq<char>)
    requires
        alphabet_wf(a),
        in_alphabet(a, s),
    ensures
        product(a, s) >= 1,
        s.len() > 0 ==> product(a, s) >= 2,
    decreases s.len(),
{
    if s.len() > 0 {
        let d = s.drop_last();
        assert(in_alphabet(a, d)) by {
            assert forall|i: int| 0 <= i < d.len() implies (#[trigger] prime_of(a, d[i])) is Some by {
                assert(d[i] == s[i]);
            }
        }
        lemma_product_positive(a, d);
        assert(prime_of(a, s[s.len() - 1]) is Some);
        lemma_weight_prime(a, s.last());
        let x = product(a, d);
        let w = weight(a, s.last());
        assert(x * w >= 2) by (nonlinear_arith)
            requires x >= 1, w >= 2;
    }
}

/// A prime that divides the product of `s` divides the weight of one of its characters.
proof fn lemma_prime_divides_product(a: LetterPrimes, s: Seq<char>, p: nat) -> (j: int)
    requires
        alphabet_wf(a),
        in_alphabet(a, s),
        is_prime(p),
        product(a, s) % (p as int) == 0,
    ensures
        0 <= j < s.len(),
        weight(a, s[j]) % (p as int) == 0,
    decreases s.len(),
{
    if s.len() == 0 {
        vstd::arithmetic::div_mod::lemma_small_mod(1, p);
        0
    } else {
        let d = s.drop_last();
        assert(in_alphabet(a, d)) by {
            assert forall|i: int| 0 <= i < d.len() implies (#[trigger] prime_of(a, d[i])) is Some by {
                assert(d[i] == s[i]);
            }
        }
        lemma_product_positive(a, d);
        assert(prime_of(a, s[s.len() - 1]) is Some);
        lemma_weight_prime(a, s.last());
        let x = product(a, d) as nat;
        let w = weight(a, s.last()) as nat;
        lemma_euclid(p, x, w);
        if x % p == 0 {
            let j = lemma_prime_divides_product(a, d, p);
            assert(d[j] == s[j]);
            j
        } else {
            s.len() - 1
        }
    }
}

/// Unique factorization for fingerprints: in a usable alphabet, inputs of its
/// letters with equal products have equal multisets of characters.
proof fn lemma_product_injective(a: LetterPrimes, s1: Seq<char>, s2: Seq<char>)
    requires
        alphabet_wf(a),
        in_alphabet(a, s1),
        in_alphabet(a, s2),
        product(a, s1) == product(a, s2),
    ensures
        s1.to_multiset() == s2.to_multiset(),
    decreases s1.len(),
{
    broadcast use vstd::seq_lib::group_to_multiset_ensures;
    lemma_product_positive(a, s2);
    if s1.len() == 0 {
        assert(s2.len() == 0);
        assert(s1 =~= s2);
    } else {
        let c = s1.last();
        let d1 = s1.drop_last();
        assert(in_alphabet(a, d1)) by {
            assert forall|i: int| 0 <= i < d1.len() implies (#[trigger] prime_of(a, d1[i])) is Some by {
                assert(d1[i] == s1[i]);
            }
        }
        assert(prime_of(a, s1[s1.len() - 1]) is Some);
        lemma_weight_prime(a, c);
        let p = weight(a, c) as nat;
        let x = product(a, d1);
        vstd::arithmetic::div_mod::lemma_mod_multiples_basic(x, p as int);
        assert(product(a, s2) % (p as int) == 0);
        let j = lemma_prime_divides_product(a, s2, p);
        assert(prime_of(a, s2[j]) is Some);
        lemma_weight_prime(a, s2[j]);
        lemma_prime_divisor(p, weight(a, s2[j]) as nat);
        let i1 = choose|i: int| 0 <= i < a.len() && #[trigger] a[i].0 == c;
        let i2 = choose|i: int| 0 <= i < a.len() && #[trigger] a[i].0 == s2[j];
        assert(a[i1].1 == a[i2].1);
        assert(i1 == i2);
        assert(s2[j] == c);
        let r = s2.remove(j);
        lemma_product_remove(a, s2, j);
        let y = product(a, r);
        assert(x == y) by (nonlinear_arith)
            requires x * (p as int) == (p as int) * y, p >= 2;
        assert(in_alphabet(a, r)) by {
            assert forall|i: int| 0 <= i < r.len() implies (#[trigger] prime_of(a, r[i])) is Some by {
                if i < j {
                    assert(r[i] == s2[i]);
                } else {
                    assert(r[i] == s2[i + 1]);
                }
            }
        }
        lemma_product_injective(a, d1, r);
        assert(s1 =~= d1.push(c));
        assert(s2.to_multiset().count(c) > 0) by {
            assert(s2.contains(c));
        }
        assert(s1.to_multiset() =~= s2.to_multiset());
    }
}

/// No collisions: in a well-formed table, two inputs that are both encoded
/// successfully in the same language, and whose case-folded characters form
/// different multisets, get different fingerprints.
pub proof fn lemma_non_anagrams_encode_apart(
    t: Seq<(Seq<char>, LetterPrimes)>,
    lang: Seq<char>,
    letters1: Seq<char>,
    letters2: Seq<char>,
)
    requires
        table_wf(t),
        lower_of(letters1).to_multiset() != lower_of(letters2).to_multiset(),
        encode_spec(t, lang, letters1) is Ok,
        encode_spec(t, lang, letters2) is Ok,
    ensures
        encode_spec(t, lang, letters1) != encode_spec(t, lang, letters2),
{
    let a = table_lookup(t, lang)->0;
    let i = choose|i: int| 0 <= i < t.len() && #[trigger] t[i].0 == lang;
    assert(alphabet_wf(t[i].1));
    let s1 = lower_of(letters1);
    let s2 = lower_of(letters2);
    lemma_product_positive(a, s1);
    lemma_product_positive(a, s2);
    if encode_spec(t, lang, letters1) == encode_spec(t, lang, letters2) {
        assert(product(a, s1) == product(a, s2));
        lemma_product_injective(a, s1, s2);
    }
}

} // verus!
