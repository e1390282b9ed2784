//! Slug codecs: bidirectional translations between a numeric paste
//! identifier and a short public slug.
//!
//! Two interchangeable variants exist, selected once at startup:
//! a reversible hash-style codec over a fixed character alphabet with an
//! optional salt, and a positional word-list codec whose base is the size
//! of an ordered, duplicate-free word list. Both satisfy
//! `decode(encode(id)) == Some(id)` for every identifier, which each
//! `encode` states directly in its contract.

use vstd::prelude::*;
use vstd::seq_lib::*;
use vstd::arithmetic::div_mod::{lemma_fundamental_div_mod, lemma_div_decreases};
use crate::error::CoreError;

verus! {

/// Value of a big-endian digit string in the given base.
pub open spec fn be_value(ds: Seq<u64>, base: int) -> int
    decreases ds.len(),
{
    if ds.len() == 0 {
        0
    } else {
        be_value(ds.drop_last(), base) * base + ds.last()
    }
}

/// No sequence of digits has a negative value.
pub proof fn lemma_be_value_nonneg(ds: Seq<u64>, base: int)
    requires
        base >= 1,
    ensures
        be_value(ds, base) >= 0,
    decreases ds.len(),
{
    if ds.len() > 0 {
        lemma_be_value_nonneg(ds.drop_last(), base);
        assert(be_value(ds.drop_last(), base) * base >= 0) by (nonlinear_arith)
            requires
                be_value(ds.drop_last(), base) >= 0,
                base >= 1,
        ;
    }
}

/// Extending a digit string cannot decrease its value: every prefix is
/// worth at most the whole string.
pub proof fn lemma_be_prefix_le(ds: Seq<u64>, base: int, j: int)
    requires
        base >= 1,
        0 <= j <= ds.len(),
    ensures
        be_value(ds.subrange(0, j), base) <= be_value(ds, base),
    decreases ds.len() - j,
{
    if j == ds.len() {
        assert(ds.subrange(0, j) =~= ds);
    } else {
        let p = ds.subrange(0, j + 1);
        assert(p.drop_last() =~= ds.subrange(0, j));
        lemma_be_value_nonneg(ds.subrange(0, j), base);
        assert(be_value(ds.subrange(0, j), base) * base >= be_value(ds.subrange(0, j), base))
            by (nonlinear_arith)
            requires
                be_value(ds.subrange(0, j), base) >= 0,
                base >= 1,
        ;
        assert(be_value(ds.subrange(0, j), base) <= be_value(p, base));
        lemma_be_prefix_le(ds, base, j + 1);
    }
}

/// Big-endian digits of `x` in base `base`: value-correct, every digit
/// below the base, and never empty.
fn to_digits(x: u64, base: u64) -> (ds: Vec<u64>)
    requires
        2 <= base,
    ensures
        be_value(ds@, base as int) == x as int,
        ds@.len() >= 1,
        forall|i: int| 0 <= i < ds@.len() ==> ds@[i] < base,
    decreases x,
{
    if x < base {
        let mut v: Vec<u64> = Vec::new();
        v.push(x);
        proof {
            assert(v@.drop_last() =~= Seq::<u64>::empty());
            assert(v@.last() == x);
            assert(be_value(v@, base as int)
                == be_value(Seq::<u64>::empty(), base as int) * (base as int) + x as int);
        }
        v
    } else {
        proof {
            lemma_div_decreases(x as int, base as int);
        }
        let mut rest = to_digits(x / base, base);
        let ghost prefix = rest@;
        rest.push(x % base);
        proof {
            assert(rest@.drop_last() =~= prefix);
            assert(rest@.last() == x % base);
            lemma_fundamental_div_mod(x as int, base as int);
            assert(be_value(rest@, base as int)
                == ((x / base) as int) * (base as int) + (x % base) as int);
        }
        rest
    }
}

/// Value of a digit string, `None` when it does not fit in an identifier.
fn value_of_digits(ds: &Vec<u64>, base: u64) -> (r: Option<u64>)
    requires
        2 <= base,
    ensures
        be_value(ds@, base as int) <= u64::MAX ==> r == Some(be_value(ds@, base as int) as u64),
        be_value(ds@, base as int) > u64::MAX ==> r is None,
{
    let mut acc: u64 = 0;
    let mut i: usize = 0;
    while i < ds.len()
        invariant
            2 <= base,
            0 <= i <= ds.len(),
            acc as int == be_value(ds@.subrange(0, i as int), base as int),
        decreases ds.len() - i,
    {
        let d = ds[i];
        let m = match acc.checked_mul(base) {
            Some(m) => m,
            None => {
                proof {
                    let p = ds@.subrange(0, i + 1);
                    assert(p.drop_last() =~= ds@.subrange(0, i as int));
                    assert(be_value(p, base as int) > u64::MAX);
                    lemma_be_prefix_le(ds@, base as int, i + 1);
                }
                return None;
            },
        };
        let a = match m.checked_add(d) {
            Some(a) => a,
            None => {
                proof {
                    let p = ds@.subrange(0, i + 1);
                    assert(p.drop_last() =~= ds@.subrange(0, i as int));
                    assert(be_value(p, base as int) > u64::MAX);
                    lemma_be_prefix_le(ds@, base as int, i + 1);
                }
                return None;
            },
        };
        acc = a;
        i += 1;
        proof {
            assert(ds@.subrange(0, i as int).drop_last() =~= ds@.subrange(0, i - 1));
        }
    }
    proof {
        assert(ds@.subrange(0, ds@.len() as int) =~= ds@);
    }
    Some(acc)
}

/// True when no two entries of `s` are equal.
pub open spec fn distinct_seq<A>(s: Seq<A>) -> bool {
    forall|i: int, j: int| 0 <= i < j < s.len() ==> s[i] != s[j]
}

/// The character views of a word list.
pub open spec fn views_of(ws: Seq<String>) -> Seq<Seq<char>> {
    ws.map_values(|w: String| w@)
}

/// What decoding a slug under the hash codec yields: each character is
/// looked up in the alphabet, the digit string is evaluated positionally,
/// and the salt is folded back out. `None` stands for a not-found slug.
pub open spec fn spec_hash_decode(alpha: Seq<char>, salt: u64, slug: Seq<char>) -> Option<u64> {
    if slug.len() == 0 {
        None
    } else if exists|i: int| 0 <= i < slug.len() && alpha.index_of_first(slug[i]) is None {
        None
    } else {
        let ds = slug.map_values(|c: char| alpha.index_of_first(c).unwrap() as u64);
        let v = be_value(ds, alpha.len() as int);
        if v <= u64::MAX {
            Some((v as u64) ^ salt)
        } else {
            None
        }
    }
}

/// What decoding a slug under the word-list codec yields.
pub open spec fn spec_word_decode(words: Seq<Seq<char>>, slug: Seq<Seq<char>>) -> Option<u64> {
    if slug.len() == 0 {
        None
    } else if exists|i: int| 0 <= i < slug.len() && words.index_of_first(slug[i]) is None {
        None
    } else {
        let ds = slug.map_values(|w: Seq<char>| words.index_of_first(w).unwrap() as u64);
        let v = be_value(ds, words.len() as int);
        if v <= u64::MAX {
            Some(v as u64)
        } else {
            None
        }
    }
}

/// The default hash-codec alphabet, in order.
pub open spec fn spec_default_alphabet() -> Seq<char> {
    seq![
        'a', 'b', 'c', 'd', 'e', 'f', 'g', 'h', 'j', 'k', 'm', 'n', 'p', 'q', 'r', 's',
        't', 'u', 'v', 'w', 'x', 'y', 'z', '2', '3', '4', '5', '6', '7', '8', '9',
    ]
}

/// Reversible hash-style codec: a fixed duplicate-free alphabet plus an
/// optional salt mixed into the identifier before positional encoding.
pub struct HashCodec {
    pub alphabet: Vec<char>,
    pub salt: u64,
}

/// Positional word-list codec: the identifier is written in a numeral
/// system whose base is the length of the duplicate-free word list.
pub struct WordCodec {
    pub words: Vec<String>,
}

impl HashCodec {
    /// A usable codec needs at least two distinct symbols.
    pub open spec fn wf(&self) -> bool {
        &&& self.alphabet@.len() >= 2
        &&& distinct_seq(self.alphabet@)
    }

    /// Builds a codec over a caller-supplied alphabet; an alphabet that is
    /// too short or holds a repeated character is a configuration error.
    pub fn with_alphabet(alphabet: Vec<char>, salt: u64) -> (r: Result<HashCodec, CoreError>)
        ensures
            r matches Ok(c) ==> c.wf() && c.alphabet@ == alphabet@ && c.salt == salt,
            r is Err ==> r == Err::<HashCodec, CoreError>(CoreError::Config)
                && !(alphabet@.len() >= 2 && distinct_seq(alphabet@)),
    {
        if alphabet.len() < 2 {
            return Err(CoreError::Config);
        }
        if !distinct_chars(&alphabet) {
            return Err(CoreError::Config);
        }
        Ok(HashCodec { alphabet, salt })
    }

    /// Builds the codec over the default lowercase-and-digit alphabet
    /// (ambiguous characters left out), fixed so slugs stay stable
    /// across runs.
    pub fn new(salt: u64) -> (r: HashCodec)
        ensures
            r.wf(),
            r.salt == salt,
            r.alphabet@ == spec_default_alphabet(),
    {
        let mut a: Vec<char> = Vec::new();
        a.push('a');
        a.push('b');
        a.push('c');
        a.push('d');
        a.push('e');
        a.push('f');
        a.push('g');
        a.push('h');
        a.push('j');
        a.push('k');
        a.push('m');
        a.push('n');
        a.push('p');
        a.push('q');
        a.push('r');
        a.push('s');
        a.push('t');
        a.push('u');
        a.push('v');
        a.push('w');
        a.push('x');
        a.push('y');
        a.push('z');
        a.push('2');
        a.push('3');
        a.push('4');
        a.push('5');
        a.push('6');
        a.push('7');
        a.push('8');
        a.push('9');
        proof {
            assert(a@ =~= spec_default_alphabet());
            assert(distinct_seq(a@));
        }
        HashCodec { alphabet: a, salt }
    }

    /// Encodes an identifier; the contract states the round trip: the
    /// produced slug decodes back to exactly this identifier.
    pub fn encode(&self, id: u64) -> (slug: Vec<char>)
        requires
            self.wf(),
        ensures
            spec_hash_decode(self.alphabet@, self.salt, slug@) == Some(id),
            slug@.len() >= 1,
            forall|i: int| 0 <= i < slug@.len() ==> self.alphabet@.contains(#[trigger] slug@[i]),
    {
        let mixed = id ^ self.salt;
        let base = self.alphabet.len() as u64;
        let ds = to_digits(mixed, base);
        let mut slug: Vec<char> = Vec::new();
        let mut i: usize = 0;
        while i < ds.len()
            invariant
                self.wf(),
                base == self.alphabet@.len(),
                forall|k: int| 0 <= k < ds@.len() ==> ds@[k] < base,
                0 <= i <= ds.len(),
                slug@.len() == i,
                forall|k: int| 0 <= k < i ==> slug@[k] == self.alphabet@[ds@[k] as int],
            decreases ds.len() - i,
        {
            let n = self.alphabet.len();
            let d = ds[i];
            proof {
                assert(ds@[i as int] < base);
                assert(d < n as u64);
            }
            slug.push(self.alphabet[d as usize]);
            i += 1;
        }
        proof {
            self.lemma_decode_of_mapped(ds@, slug@, mixed);
            let s = self.salt;
            assert((mixed ^ s) == id) by (bit_vector)
                requires
                    mixed == id ^ s,
            ;
        }
        slug
    }

    /// Decodes a slug; `None` for a slug no identifier encodes to.
    pub fn decode(&self, slug: &Vec<char>) -> (r: Option<u64>)
        requires
            self.wf(),
        ensures
            r == spec_hash_decode(self.alphabet@, self.salt, slug@),
    {
        if slug.len() == 0 {
            return None;
        }
        let base = self.alphabet.len() as u64;
        let mut ds: Vec<u64> = Vec::new();
        let mut i: usize = 0;
        while i < slug.len()
            invariant
                self.wf(),
                base == self.alphabet@.len(),
                0 <= i <= slug@.len(),
                ds@.len() == i,
                forall|k: int| 0 <= k < i ==>
                    (#[trigger] self.alphabet@.index_of_first(slug@[k])) is Some
                        && ds@[k] == self.alphabet@.index_of_first(slug@[k]).unwrap() as u64,
            decreases slug.len() - i,
        {
            let c = slug[i];
            match find_char(&self.alphabet, c) {
                Some(n) => {
                    ds.push(n as u64);
                },
                None => {
                    proof {
                        assert(self.alphabet@.index_of_first(slug@[i as int]) is None);
                    }
                    return None;
                },
            }
            i += 1;
        }
        proof {
            let m = slug@.map_values(
                |c: char| self.alphabet@.index_of_first(c).unwrap() as u64,
            );
            assert(ds@ =~= m);
        }
        match value_of_digits(&ds, base) {
            Some(v) => Some(v ^ self.salt),
            None => None,
        }
    }

    /// A slug built by mapping value-correct digits through the alphabet
    /// decodes to the digits' value with the salt folded back out.
    proof fn lemma_decode_of_mapped(&self, ds: Seq<u64>, slug: Seq<char>, mixed: u64)
        requires
            self.wf(),
            ds.len() >= 1,
            forall|k: int| 0 <= k < ds.len() ==> ds[k] < self.alphabet@.len(),
            be_value(ds, self.alphabet@.len() as int) == mixed as int,
            slug.len() == ds.len(),
            forall|k: int| 0 <= k < ds.len() ==> slug[k] == self.alphabet@[ds[k] as int],
        ensures
            spec_hash_decode(self.alphabet@, self.salt, slug) == Some((mixed ^ self.salt) as u64),
            forall|i: int| 0 <= i < slug.len() ==> self.alphabet@.contains(#[trigger] slug[i]),
    {
        let alpha = self.alphabet@;
        assert forall|k: int| 0 <= k < slug.len() implies
            alpha.index_of_first(#[trigger] slug[k]) == Some(ds[k] as int) by {
            assert(alpha[ds[k] as int] == slug[k]);
            assert(alpha.contains(slug[k]));
            alpha.index_of_first_ensures(slug[k]);
            let n = alpha.index_of_first(slug[k]).unwrap();
            assert(alpha[n] == slug[k]);
            if n != ds[k] as int {
                assert(alpha[n] == alpha[ds[k] as int]);
                assert(false);
            }
        }
        assert forall|i: int| 0 <= i < slug.len() implies
            alpha.contains(#[trigger] slug[i]) by {
            alpha.index_of_first_ensures(slug[i]);
        }
        let m = slug.map_values(|c: char| alpha.index_of_first(c).unwrap() as u64);
        assert(m =~= ds);
    }
}

/// First index of `c` in the alphabet, scanned front to back.
fn find_char(alpha: &Vec<char>, c: char) -> (r: Option<usize>)
    ensures
        r matches Some(n) ==> alpha@.index_of_first(c) == Some(n as int),
        r is None ==> alpha@.index_of_first(c) is None,
{
    let mut i: usize = 0;
    while i < alpha.len()
        invariant
            0 <= i <= alpha@.len(),
            forall|k: int| 0 <= k < i ==> alpha@[k] != c,
        decreases alpha.len() - i,
    {
        if alpha[i] == c {
            proof {
                alpha@.index_of_first_ensures(c);
                assert(alpha@.contains(c));
                let n = alpha@.index_of_first(c).unwrap();
                assert(alpha@[n] == c);
                if n < i as int {
                    assert(false);
                }
                if n > i as int {
                    assert(alpha@[i as int] != c);
                    assert(false);
                }
            }
            return Some(i);
        }
        i += 1;
    }
    proof {
        assert(!alpha@.contains(c));
        alpha@.index_of_first_ensures(c);
    }
    None
}

/// First word of the list whose characters equal `w`'s.
fn find_word(words: &Vec<String>, w: &String) -> (r: Option<usize>)
    ensures
        r matches Some(n) ==> views_of(words@).index_of_first(w@) == Some(n as int),
        r is None ==> views_of(words@).index_of_first(w@) is None,
{
    let ghost vs = views_of(words@);
    let mut i: usize = 0;
    while i < words.len()
        invariant
            vs == views_of(words@),
            vs.len() == words@.len(),
            forall|k: int| 0 <= k < words@.len() ==> vs[k] == words@[k]@,
            0 <= i <= words@.len(),
            forall|k: int| 0 <= k < i ==> vs[k] != w@,
        decreases words.len() - i,
    {
        if words[i] == *w {
            proof {
                assert(vs[i as int] == words@[i as int]@);
                assert(vs[i as int] == w@);
                vs.index_of_first_ensures(w@);
                assert(vs.contains(w@));
                let n = vs.index_of_first(w@).unwrap();
                if n < i as int {
                    assert(false);
                }
                if n > i as int {
                    assert(vs[i as int] != w@);
                    assert(false);
                }
            }
            return Some(i);
        }
        i += 1;
    }
    proof {
        assert(!vs.contains(w@));
        vs.index_of_first_ensures(w@);
    }
    None
}

/// Runtime check that no character repeats in the alphabet.
fn distinct_chars(alpha: &Vec<char>) -> (r: bool)
    ensures
        r == distinct_seq(alpha@),
{
    let mut i: usize = 0;
    while i < alpha.len()
        invariant
            0 <= i <= alpha@.len(),
            forall|p: int, q: int| 0 <= p < q < i ==> alpha@[p] != alpha@[q],
        decreases alpha.len() - i,
    {
        let mut j: usize = 0;
        while j < i
            invariant
                0 <= j <= i < alpha@.len(),
                forall|p: int, q: int| 0 <= p < q < i ==> alpha@[p] != alpha@[q],
                forall|p: int| 0 <= p < j ==> alpha@[p] != alpha@[i as int],
            decreases i - j,
        {
            if alpha[j] == alpha[i] {
                return false;
            }
            j += 1;
        }
        i += 1;
    }
    true
}

/// Runtime check that no word (by its characters) repeats in the list.
fn distinct_words(words: &Vec<String>) -> (r: bool)
    ensures
        r == distinct_seq(views_of(words@)),
{
    let ghost vs = views_of(words@);
    let mut i: usize = 0;
    while i < words.len()
        invariant
            vs == views_of(words@),
            vs.len() == words@.len(),
            forall|k: int| 0 <= k < words@.len() ==> vs[k] == words@[k]@,
            0 <= i <= words@.len(),
            forall|p: int, q: int| 0 <= p < q < i ==> vs[p] != vs[q],
        decreases words.len() - i,
    {
        let mut j: usize = 0;
        while j < i
            invariant
                vs == views_of(words@),
                vs.len() == words@.len(),
                forall|k: int| 0 <= k < words@.len() ==> vs[k] == words@[k]@,
                0 <= j <= i < words@.len(),
                forall|p: int, q: int| 0 <= p < q < i ==> vs[p] != vs[q],
                forall|p: int| 0 <= p < j ==> vs[p] != vs[i as int],
            decreases i - j,
        {
            if words[j] == words[i] {
                proof {
                    assert(vs[j as int] == words@[j as int]@);
                    assert(vs[i as int] == words@[i as int]@);
                    assert(vs[j as int] == vs[i as int]);
                    assert(!distinct_seq(vs));
                }
                return false;
            }
            proof {
                assert(vs[j as int] != vs[i as int]);
            }
            j += 1;
        }
        i += 1;
    }
    true
}

/// The characters of the built-in word list, in order.
pub open spec fn spec_default_words() -> Seq<Seq<char>> {
    seq![
        "ant"@, "bat"@, "cat"@, "dog"@, "eel"@, "fox"@, "gnu"@, "hen"@,
        "ibis"@, "jay"@, "koi"@, "lynx"@, "mole"@, "newt"@, "owl"@, "pug"@,
        "quail"@, "ram"@, "seal"@, "toad"@, "vole"@, "wren"@, "yak"@, "zebu"@,
    ]
}

/// The built-in word list of the word-list codec, used when no
/// replacement file is configured: short animal names, duplicate-free
/// and in a fixed order, so slugs stay stable across runs.
#[verifier::rlimit(60)]
pub fn default_words() -> (words: Vec<String>)
    ensures
        views_of(words@) == spec_default_words(),
        distinct_seq(views_of(words@)),
        words@.len() >= 2,
{
    let mut words: Vec<String> = Vec::new();
    words.push("ant".to_owned());
    words.push("bat".to_owned());
    words.push("cat".to_owned());
    words.push("dog".to_owned());
    words.push("eel".to_owned());
    words.push("fox".to_owned());
    words.push("gnu".to_owned());
    words.push("hen".to_owned());
    words.push("ibis".to_owned());
    words.push("jay".to_owned());
    words.push("koi".to_owned());
    words.push("lynx".to_owned());
    words.push("mole".to_owned());
    words.push("newt".to_owned());
    words.push("owl".to_owned());
    words.push("pug".to_owned());
    words.push("quail".to_owned());
    words.push("ram".to_owned());
    words.push("seal".to_owned());
    words.push("toad".to_owned());
    words.push("vole".to_owned());
    words.push("wren".to_owned());
    words.push("yak".to_owned());
    words.push("zebu".to_owned());
    proof {
        reveal_strlit("ant");
        reveal_strlit("bat");
        reveal_strlit("cat");
        reveal_strlit("dog");
        reveal_strlit("eel");
        reveal_strlit("fox");
        reveal_strlit("gnu");
        reveal_strlit("hen");
        reveal_strlit("ibis");
        reveal_strlit("jay");
        reveal_strlit("koi");
        reveal_strlit("lynx");
        reveal_strlit("mole");
        reveal_strlit("newt");
        reveal_strlit("owl");
        reveal_strlit("pug");
        reveal_strlit("quail");
        reveal_strlit("ram");
        reveal_strlit("seal");
        reveal_strlit("toad");
        reveal_strlit("vole");
        reveal_strlit("wren");
        reveal_strlit("yak");
        reveal_strlit("zebu");
        assert(views_of(words@) =~= spec_default_words());
        // Every word begins with a different letter, so no two are alike.
        assert("ant"@[0] == 'a' && "bat"@[0] == 'b' && "cat"@[0] == 'c' && "dog"@[0] == 'd');
        assert("eel"@[0] == 'e' && "fox"@[0] == 'f' && "gnu"@[0] == 'g' && "hen"@[0] == 'h');
        assert("ibis"@[0] == 'i' && "jay"@[0] == 'j' && "koi"@[0] == 'k' && "lynx"@[0] == 'l');
        assert("mole"@[0] == 'm' && "newt"@[0] == 'n' && "owl"@[0] == 'o' && "pug"@[0] == 'p');
        assert("quail"@[0] == 'q' && "ram"@[0] == 'r' && "seal"@[0] == 's' && "toad"@[0] == 't');
        assert("vole"@[0] == 'v' && "wren"@[0] == 'w' && "yak"@[0] == 'y' && "zebu"@[0] == 'z');
        assert(distinct_seq(views_of(words@)));
    }
    words
}

impl WordCodec {
    /// A usable word list holds at least two words, no two alike.
    pub open spec fn wf(&self) -> bool {
        &&& self.words@.len() >= 2
        &&& distinct_seq(views_of(self.words@))
    }

    /// Builds the codec from a word list; an empty, one-word or repeating
    /// list is a configuration error.
    pub fn from_words(words: Vec<String>) -> (r: Result<WordCodec, CoreError>)
        ensures
            r matches Ok(c) ==> c.wf() && c.words@ == words@,
            r is Err ==> r == Err::<WordCodec, CoreError>(CoreError::Config)
                && !(words@.len() >= 2 && distinct_seq(views_of(words@))),
    {
        if words.len() < 2 {
            return Err(CoreError::Config);
        }
        if !distinct_words(&words) {
            return Err(CoreError::Config);
        }
        Ok(WordCodec { words })
    }

    /// Encodes an identifier as a sequence of words; the contract states
    /// the round trip: the slug decodes back to exactly this identifier.
    pub fn encode(&self, id: u64) -> (slug: Vec<String>)
        requires
            self.wf(),
        ensures
            spec_word_decode(views_of(self.words@), views_of(slug@)) == Some(id),
            slug@.len() >= 1,
    {
        let base = self.words.len() as u64;
        let ds = to_digits(id, base);
        let mut slug: Vec<String> = Vec::new();
        let mut i: usize = 0;
        while i < ds.len()
            invariant
                self.wf(),
                base == self.words@.len(),
                forall|k: int| 0 <= k < ds@.len() ==> ds@[k] < base,
                0 <= i <= ds.len(),
                slug@.len() == i,
                forall|k: int| 0 <= k < i ==> slug@[k]@ == self.words@[ds@[k] as int]@,
            decreases ds.len() - i,
        {
            let n = self.words.len();
            let d = ds[i];
            proof {
                assert(ds@[i as int] < base);
                assert(d < n as u64);
            }
            slug.push(self.words[d as usize].clone());
            i += 1;
        }
        proof {
            self.lemma_decode_of_mapped(ds@, views_of(slug@), id);
        }
        slug
    }

    /// Decodes a word slug; `None` when a word is not on the list or the
    /// value does not fit an identifier.
    pub fn decode(&self, slug: &Vec<String>) -> (r: Option<u64>)
        requires
            self.wf(),
        ensures
            r == spec_word_decode(views_of(self.words@), views_of(slug@)),
    {
        let ghost vs = views_of(self.words@);
        let ghost sv = views_of(slug@);
        if slug.len() == 0 {
            return None;
        }
        let base = self.words.len() as u64;
        let mut ds: Vec<u64> = Vec::new();
        let mut i: usize = 0;
        while i < slug.len()
            invariant
                self.wf(),
                vs == views_of(self.words@),
                sv == views_of(slug@),
                sv.len() == slug@.len(),
                forall|k: int| 0 <= k < slug@.len() ==> sv[k] == slug@[k]@,
                base == self.words@.len(),
                0 <= i <= slug@.len(),
                ds@.len() == i,
                forall|k: int| 0 <= k < i ==>
                    (#[trigger] vs.index_of_first(sv[k])) is Some
                        && ds@[k] == vs.index_of_first(sv[k]).unwrap() as u64,
            decreases slug.len() - i,
        {
            match find_word(&self.words, &slug[i]) {
                Some(n) => {
                    ds.push(n as u64);
                },
                None => {
                    proof {
                        assert(vs.index_of_first(sv[i as int]) is None);
                    }
                    return None;
                },
            }
            i += 1;
        }
        proof {
            let m = sv.map_values(|w: Seq<char>| vs.index_of_first(w).unwrap() as u64);
            assert(ds@ =~= m);
        }
        match value_of_digits(&ds, base) {
            Some(v) => Some(v),
            None => None,
        }
    }

    /// A slug built by mapping value-correct digits through the word list
    /// decodes to the digits' value.
    proof fn lemma_decode_of_mapped(&self, ds: Seq<u64>, slug: Seq<Seq<char>>, id: u64)
        requires
            self.wf(),
            ds.len() >= 1,
            forall|k: int| 0 <= k < ds.len() ==> ds[k] < self.words@.len(),
            be_value(ds, self.words@.len() as int) == id as int,
            slug.len() == ds.len(),
            forall|k: int| 0 <= k < ds.len() ==> slug[k] == self.words@[ds[k] as int]@,
        ensures
            spec_word_decode(views_of(self.words@), slug) == Some(id),
    {
        let vs = views_of(self.words@);
        assert forall|k: int| 0 <= k < slug.len() implies
            vs.index_of_first(#[trigger] slug[k]) == Some(ds[k] as int) by {
            assert(vs[ds[k] as int] == slug[k]);
            assert(vs.contains(slug[k]));
            vs.index_of_first_ensures(slug[k]);
            let n = vs.index_of_first(slug[k]).unwrap();
            assert(vs[n] == slug[k]);
            if n != ds[k] as int {
                assert(vs[n] == vs[ds[k] as int]);
                assert(false);
            }
        }
        let m = slug.map_values(|w: Seq<char>| vs.index_of_first(w).unwrap() as u64);
        assert(m =~= ds);
    }
}

} // verus!
