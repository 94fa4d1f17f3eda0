use vstd::prelude::*;
use crate::primes::{check_prime, is_prime};

verus! {

/// The letters of one language, each with the prime it stands for.
pub type LetterPrimes = Seq<(char, u64)>;

/// No letter occurs twice.
pub open spec fn letters_distinct(a: LetterPrimes) -> bool {
    forall|i: int, j: int|
        0 <= i < a.len() && 0 <= j < a.len() && i != j ==> #[trigger] a[i].0 != #[trigger] a[j].0
}

/// No prime is given to two letters.
pub open spec fn primes_distinct(a: LetterPrimes) -> bool {
    forall|i: int, j: int|
        0 <= i < a.len() && 0 <= j < a.len() && i != j ==> #[trigger] a[i].1 != #[trigger] a[j].1
}

/// Every value is a prime.
pub open spec fn all_prime(a: LetterPrimes) -> bool {
    forall|i: int| 0 <= i < a.len() ==> is_prime(#[trigger] a[i].1 as nat)
}

/// A usable alphabet: an injective map from letters to primes.
pub open spec fn alphabet_wf(a: LetterPrimes) -> bool {
    &&& letters_distinct(a)
    &&& primes_distinct(a)
    &&& all_prime(a)
}

/// The prime of letter `c`, if the alphabet has `c`.
pub open spec fn prime_of(a: LetterPrimes, c: char) -> Option<u64> {
    if exists|i: int| 0 <= i < a.len() && #[trigger] a[i].0 == c {
        Some(a[choose|i: int| 0 <= i < a.len() && #[trigger] a[i].0 == c].1)
    } else {
        None
    }
}

/// The alphabet of language `lang`, if the table has it.
pub open spec fn table_lookup(t: Seq<(Seq<char>, LetterPrimes)>, lang: Seq<char>) -> Option<LetterPrimes> {
    if exists|i: int| 0 <= i < t.len() && #[trigger] t[i].0 == lang {
        Some(t[choose|i: int| 0 <= i < t.len() && #[trigger] t[i].0 == lang].1)
    } else {
        None
    }
}

/// The entries of a configured alphabet as letters: each key's first character.
pub open spec fn letter_entries(v: Seq<(String, u64)>) -> LetterPrimes {
    v.map_values(|p: (String, u64)| (p.0@[0], p.1))
}

/// Why a language could not be added to an alphabet table.
#[derive(Clone, Copy, Debug, PartialEq, Eq, Structural)]
pub enum TableError {
    DuplicateLanguage,
    NotASingleLetter,
    NotPrime,
    DuplicateLetter,
    DuplicatePrime,
}

/// One language: its identifier and its letter-to-prime assignment.
pub struct Language {
    name: String,
    letters: Vec<(char, u64)>,
}

impl View for Language {
    type V = (Seq<char>, LetterPrimes);

    closed spec fn view(&self) -> (Seq<char>, LetterPrimes) {
        (self.name@, self.letters@)
    }
}

impl Language {
    pub open spec fn wf(&self) -> bool {
        alphabet_wf(self@.1)
    }

    /// The prime that this language gives to `c`, if `c` is one of its letters.
    pub fn prime_of(&self, c: char) -> (r: Option<u64>)
        requires
            self.wf(),
        ensures
            r == prime_of(self@.1, c),
    {
        let mut i: usize = 0;
        while i < self.letters.len()
            invariant
                self.wf(),
                self@.1 == self.letters@,
                i <= self.letters.len(),
                forall|k: int| 0 <= k < i ==> #[trigger] self.letters@[k].0 != c,
            decreases self.letters.len() - i,
        {
            if self.letters[i].0 == c {
                proof {
                    let a = self.letters@;
                    let j = choose|j: int| 0 <= j < a.len() && #[trigger] a[j].0 == c;
                    assert(a[i as int].0 == c);
                    assert(j == i);
                }
                return Some(self.letters[i].1);
            }
            i = i + 1;
        }
        None
    }
}

/// The alphabets of all configured languages.
pub struct AlphabetTable {
    languages: Vec<Language>,
}

impl View for AlphabetTable {
    type V = Seq<(Seq<char>, LetterPrimes)>;

    closed spec fn view(&self) -> Seq<(Seq<char>, LetterPrimes)> {
        self.languages@.map_values(|l: Language| l@)
    }
}

/// Each language once, each with a usable alphabet.
pub open spec fn table_wf(t: Seq<(Seq<char>, LetterPrimes)>) -> bool {
    &&& forall|i: int, j: int|
        0 <= i < t.len() && 0 <= j < t.len() && i != j ==> #[trigger] t[i].0 != #[trigger] t[j].0
    &&& forall|i: int| 0 <= i < t.len() ==> alphabet_wf(#[trigger] t[i].1)
}

fn letters_are_distinct(v: &Vec<(char, u64)>) -> (r: bool)
    ensures
        r == letters_distinct(v@),
{
    let mut i: usize = 0;
    while i < v.len()
        invariant
            i <= v.len(),
            forall|a: int, b: int|
                0 <= a < i && 0 <= b < v.len() && a != b ==> #[trigger] v@[a].0 != #[trigger] v@[b].0,
        decreases v.len() - i,
    {
        let mut j: usize = 0;
        while j < v.len()
            invariant
                i < v.len(),
                j <= v.len(),
                forall|a: int, b: int|
                    0 <= a < i && 0 <= b < v.len() && a != b ==> #[trigger] v@[a].0 != #[trigger] v@[b].0,
                forall|b: int| 0 <= b < j && b != i ==> #[trigger] v@[b].0 != v@[i as int].0,
            decreases v.len() - j,
        {
            if j != i && v[j].0 == v[i].0 {
                return false;
            }
            j = j + 1;
        }
        i = i + 1;
    }
    true
}

fn primes_are_distinct(v: &Vec<(char, u64)>) -> (r: bool)
    ensures
        r == primes_distinct(v@),
{
    let mut i: usize = 0;
    while i < v.len()
        invariant
            i <= v.len(),
            forall|a: int, b: int|
                0 <= a < i && 0 <= b < v.len() && a != b ==> #[trigger] v@[a].1 != #[trigger] v@[b].1,
        decreases v.len() - i,
    {
        let mut j: usize = 0;
        while j < v.len()
            invariant
                i < v.len(),
                j <= v.len(),
                forall|a: int, b: int|
                    0 <= a < i && 0 <= b < v.len() && a != b ==> #[trigger] v@[a].1 != #[trigger] v@[b].1,
                forall|b: int| 0 <= b < j && b != i ==> #[trigger] v@[b].1 != v@[i as int].1,
            decreases v.len() - j,
        {
            if j != i && v[j].1 == v[i].1 {
                return false;
            }
            j = j + 1;
        }
        i = i + 1;
    }
    true
}


fn all_primes(v: &Vec<(char, u64)>) -> (r: bool)
    ensures
        r == all_prime(v@),
{
    let mut i: usize = 0;
    while i < v.len()
        invariant
            i <= v.len(),
            forall|k: int| 0 <= k < i ==> is_prime(#[trigger] v@[k].1 as nat),
        decreases v.len() - i,
    {
        if !check_prime(v[i].1) {
            return false;
        }
        i = i + 1;
    }
    true
}

/// Each key of a configured alphabet is one character long.
pub open spec fn single_letters(v: Seq<(String, u64)>) -> bool {
    forall|i: int| 0 <= i < v.len() ==> (#[trigger] v[i]).0@.len() == 1
}

/// The keys of `v` as letters, or `None` where a key is not one character.
fn to_letters(v: &Vec<(String, u64)>) -> (r: Option<Vec<(char, u64)>>)
    ensures
        match r {
            Some(out) => single_letters(v@) && out@ == letter_entries(v@),
            None => !single_letters(v@),
        },
{
    let mut out: Vec<(char, u64)> = Vec::new();
    let mut i: usize = 0;
    while i < v.len()
        invariant
            i <= v.len(),
            out@.len() == i,
            forall|k: int| 0 <= k < i ==> (#[trigger] v@[k]).0@.len() == 1,
            forall|k: int| 0 <= k < i ==> #[trigger] out@[k] == (v@[k].0@[0], v@[k].1),
        decreases v.len() - i,
    {
        let key = v[i].0.as_str();
        if key.unicode_len() != 1 {
            return None;
        }
        out.push((key.get_char(0), v[i].1));
        i = i + 1;
    }
    assert(out@ =~= letter_entries(v@));
    Some(out)
}

impl AlphabetTable {
    pub open spec fn wf(&self) -> bool {
        table_wf(self@)
    }

    /// A table with no languages.
    pub fn new() -> (r: AlphabetTable)
        ensures
            r@ == Seq::<(Seq<char>, LetterPrimes)>::empty(),
            r.wf(),
    {
        let r = AlphabetTable { languages: Vec::new() };
        assert(r@ =~= Seq::<(Seq<char>, LetterPrimes)>::empty());
        r
    }

    /// Adds language `name` with the given letter-to-prime entries, after
    /// checking that the language is new, that each key is one character,
    /// that each value is prime, and that no letter or prime is repeated.
    /// On an error the table is left unchanged.
    pub fn add_language(&mut self, name: String, letters: Vec<(String, u64)>) -> (r: Result<(), TableError>)
        requires
            old(self).wf(),
        ensures
            final(self).wf(),
            table_lookup(old(self)@, name@) is Some ==> r == Err::<(), TableError>(TableError::DuplicateLanguage),
            table_lookup(old(self)@, name@) is None && !single_letters(letters@)
                ==> r == Err::<(), TableError>(TableError::NotASingleLetter),
            table_lookup(old(self)@, name@) is None && single_letters(letters@)
                && !all_prime(letter_entries(letters@))
                ==> r == Err::<(), TableError>(TableError::NotPrime),
            table_lookup(old(self)@, name@) is None && single_letters(letters@)
                && all_prime(letter_entries(letters@)) && !letters_distinct(letter_entries(letters@))
                ==> r == Err::<(), TableError>(TableError::DuplicateLetter),
            table_lookup(old(self)@, name@) is None && single_letters(letters@)
                && all_prime(letter_entries(letters@)) && letters_distinct(letter_entries(letters@))
                && !primes_distinct(letter_entries(letters@))
                ==> r == Err::<(), TableError>(TableError::DuplicatePrime),
            r is Ok <==> (table_lookup(old(self)@, name@) is None && single_letters(letters@)
                && alphabet_wf(letter_entries(letters@))),
            r is Ok ==> final(self)@ == old(self)@.push((name@, letter_entries(letters@))),
            r is Err ==> final(self)@ == old(self)@,
    {
        if self.get(&name).is_some() {
            return Err(TableError::DuplicateLanguage);
        }
        let entries = match to_letters(&letters) {
            Some(e) => e,
            None => return Err(TableError::NotASingleLetter),
        };
        if !all_primes(&entries) {
            return Err(TableError::NotPrime);
        }
        if !letters_are_distinct(&entries) {
            return Err(TableError::DuplicateLetter);
        }
        if !primes_are_distinct(&entries) {
            return Err(TableError::DuplicatePrime);
        }
        let ghost before = self@;
        self.languages.push(Language { name, letters: entries });
        proof {
            assert(self@ =~= before.push((name@, letter_entries(letters@))));
            let t = self@;
            assert forall|i: int, j: int|
                0 <= i < t.len() && 0 <= j < t.len() && i != j implies #[trigger] t[i].0 != #[trigger] t[j].0 by {
                if i == t.len() - 1 && t[j].0 == name@ {
                    assert(before[j].0 == name@);
                }
                if j == t.len() - 1 && t[i].0 == name@ {
                    assert(before[i].0 == name@);
                }
            }
            assert forall|i: int| 0 <= i < t.len() implies alphabet_wf(#[trigger] t[i].1) by {
                if i < before.len() {
                    assert(t[i] == before[i]);
                }
            }
        }
        Ok(())
    }

    /// The language called `lang`, if the table has it.
    pub fn get(&self, lang: &String) -> (r: Option<&Language>)
        requires
            self.wf(),
        ensures
            match r {
                Some(l) => table_lookup(self@, lang@) == Some(l@.1) && l@.0 == lang@ && l.wf(),
                None => table_lookup(self@, lang@) is None,
            },
    {
        let mut i: usize = 0;
        while i < self.languages.len()
            invariant
                self.wf(),
                i <= self.languages.len(),
                self@ == self.languages@.map_values(|l: Language| l@),
                forall|k: int| 0 <= k < i ==> #[trigger] self@[k].0 != lang@,
            decreases self.languages.len() - i,
        {
            let same = self.languages[i].name.eq(lang);
            if same {
                proof {
                    let t = self@;
                    assert(self.languages@[i as int].name@ == lang@);
                    assert(t[i as int].0 == lang@);
                    assert(t[i as int] == self.languages@[i as int]@);
                    let j = choose|j: int| 0 <= j < t.len() && #[trigger] t[j].0 == lang@;
                    assert(j == i);
                }
                return Some(&self.languages[i]);
            }
            assert(self@[i as int] == self.languages@[i as int]@);
            i = i + 1;
        }
        None
    }
}

} // verus!
