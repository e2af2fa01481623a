//! Alphabets of compact integer symbols and their pairing with human
//! characters.

use vstd::prelude::*;
use std::collections::HashMap;
use std::collections::HashSet;
use crate::rng::random_below;

verus! {

broadcast use vstd::std_specs::hash::group_hash_axioms;

/// A compact symbol: an index into an alphabet.  Eight bits suffice for
/// alphabets of up to 256 symbols.
pub type Char = u8;

/// A dense range `[0, len)` of symbols.
#[derive(Clone, Debug)]
pub struct Alphabet {
    len: usize,
}

impl Alphabet {
    /// How many symbols the alphabet holds.
    pub closed spec fn spec_len(&self) -> usize {
        self.len
    }

    /// The alphabet `[0, len)`.
    pub fn new(len: usize) -> (r: Alphabet)
        ensures
            r.spec_len() == len,
    {
        Self { len }
    }

    /// Grow the alphabet by `n` symbols.
    pub fn extend(&mut self, n: usize)
        requires
            old(self).spec_len() + n <= usize::MAX,
        ensures
            final(self).spec_len() == old(self).spec_len() + n,
    {
        self.len = self.len + n;
    }

    /// How many symbols the alphabet holds.
    #[verifier::when_used_as_spec(spec_len)]
    pub fn len(&self) -> (r: usize)
        ensures
            r == self.spec_len(),
    {
        self.len
    }

    /// The set of all symbols of the alphabet.
    pub fn char_set(&self) -> (r: HashSet<Char>)
        requires
            self.spec_len() <= 256,
        ensures
            r@ == Set::new(|c: Char| (c as int) < self.spec_len()),
    {
        let mut r: HashSet<Char> = HashSet::new();
        let mut i: usize = 0;
        while i < self.len
            invariant
                i <= self.len <= 256,
                r@ == Set::new(|c: Char| (c as int) < i),
            decreases self.len - i,
        {
            r.insert(i as Char);
            proof {
                assert(r@ =~= Set::new(|c: Char| (c as int) < i + 1));
            }
            i = i + 1;
        }
        r
    }

    /// Every symbol of the alphabet, in order.
    pub fn char_vec(&self) -> (r: Vec<Char>)
        requires
            self.spec_len() <= 256,
        ensures
            r@.len() == self.spec_len(),
            forall|i: int| 0 <= i < r@.len() ==> r@[i] == i as Char,
    {
        let mut r: Vec<Char> = Vec::new();
        let mut i: usize = 0;
        while i < self.len
            invariant
                i <= self.len <= 256,
                r@.len() == i,
                forall|k: int| 0 <= k < i ==> r@[k] == k as Char,
            decreases self.len - i,
        {
            r.push(i as Char);
            i = i + 1;
        }
        r
    }

    /// A uniformly random symbol of the alphabet.
    pub fn random_char(&self) -> (r: Char)
        requires
            1 <= self.spec_len() <= 255,
        ensures
            (r as int) < self.spec_len(),
    {
        random_below(self.len) as Char
    }
}

/// No character occurs twice.
pub open spec fn distinct_chars(s: Seq<char>) -> bool {
    forall|i: int, j: int| 0 <= i < j < s.len() ==> s[i] != s[j]
}

/// The symbol of character `c` in alphabet `alpha`: the index at which `c`
/// stands.  Meaningful only when `alpha` contains `c` exactly once.
pub open spec fn sym_of(alpha: Seq<char>, c: char) -> int {
    choose|i: int| 0 <= i < alpha.len() && alpha[i] == c
}

/// A paired mapping between human characters and compact symbols, built from
/// an alphabet string: character `alpha[i]` stands for symbol `i`.
#[derive(Clone, Debug)]
pub struct Encoding {
    alphabet: Vec<char>,
}

impl Encoding {
    /// The alphabet string as a sequence: position `i` holds the human form
    /// of symbol `i`.
    pub closed spec fn chars(&self) -> Seq<char> {
        self.alphabet@
    }

    /// Both directions of the mapping are total and inverse to each other:
    /// the characters are pairwise distinct, and each symbol is a valid `u8`.
    pub open spec fn wf(&self) -> bool {
        &&& distinct_chars(self.chars())
        &&& self.chars().len() <= 256
    }

    /// Build the mapping from an alphabet string whose `i`th character is the
    /// human form of symbol `i`.
    pub fn from_alphabet_string(alphabet: &str) -> (r: Self)
        requires
            alphabet@.len() <= 256,
            distinct_chars(alphabet@),
        ensures
            r.chars() == alphabet@,
            r.wf(),
    {
        let n = alphabet.unicode_len();
        let mut chars: Vec<char> = Vec::new();
        let mut i: usize = 0;
        while i < n
            invariant
                i <= n == alphabet@.len(),
                chars@ == alphabet@.subrange(0, i as int),
            decreases n - i,
        {
            chars.push(alphabet.get_char(i));
            proof {
                assert(chars@ =~= alphabet@.subrange(0, i + 1));
            }
            i = i + 1;
        }
        proof {
            assert(chars@ =~= alphabet@);
        }
        Self { alphabet: chars }
    }

    /// The number of characters the encoding maps.
    pub fn len(&self) -> (r: usize)
        ensures
            r == self.chars().len(),
    {
        self.alphabet.len()
    }

    /// The cipher alphabet this encoding induces under a homophone ratio
    /// given in microunits: `len + floor(len * ratio / SCALE)` symbols.
    pub fn alphabet(&self, homophone_ratio: u64) -> (r: Alphabet)
        requires
            self.chars().len() * homophone_ratio / (crate::SCALE as int) + self.chars().len()
                <= usize::MAX,
        ensures
            r.spec_len() == self.chars().len() + self.chars().len() * homophone_ratio / (
            crate::SCALE as int),
    {
        let len = self.alphabet.len();
        let extend_by = ((len as u128 * homophone_ratio as u128) / (crate::SCALE as u128)) as usize;
        Alphabet::new(len + extend_by)
    }

    /// The characters the encoding maps, in symbol order.
    pub fn char_set(&self) -> (r: Vec<char>)
        ensures
            r@ == self.chars(),
    {
        let mut r: Vec<char> = Vec::new();
        let mut i: usize = 0;
        let n = self.alphabet.len();
        while i < n
            invariant
                i <= n == self.chars().len(),
                r@ == self.chars().subrange(0, i as int),
            decreases n - i,
        {
            r.push(self.alphabet[i]);
            proof {
                assert(r@ =~= self.chars().subrange(0, i + 1));
            }
            i = i + 1;
        }
        proof {
            assert(r@ =~= self.chars());
        }
        r
    }

    /// The symbol whose human form is `c`.
    pub fn encode_char(&self, c: char) -> (r: usize)
        requires
            self.wf(),
            self.chars().contains(c),
        ensures
            r < self.chars().len(),
            self.chars()[r as int] == c,
            r == sym_of(self.chars(), c),
    {
        let n = self.alphabet.len();
        let mut i: usize = 0;
        while i < n
            invariant
                i <= n == self.chars().len(),
                self.wf(),
                self.chars().contains(c),
                forall|k: int| 0 <= k < i ==> self.chars()[k] != c,
            decreases n - i,
        {
            if self.alphabet[i] == c {
                proof {
                    let w = sym_of(self.chars(), c);
                    assert(0 <= w < self.chars().len() && self.chars()[w] == c);
                }
                return i;
            }
            i = i + 1;
        }
        proof {
            let w = choose|k: int| 0 <= k < self.chars().len() && self.chars()[k] == c;
            assert(self.chars()[w] != c);
        }
        unreached()
    }

    /// Encode `decoded` into the pre-sized buffer `encoded`: position `k`
    /// receives the symbol of character `decoded[k]`.
    pub fn encode(&self, decoded: &Vec<char>, encoded: &mut Vec<Char>)
        requires
            self.wf(),
            forall|k: int| 0 <= k < decoded@.len() ==> self.chars().contains(#[trigger] decoded@[k]),
            old(encoded)@.len() == decoded@.len(),
        ensures
            final(encoded)@.len() == decoded@.len(),
            forall|k: int|
                0 <= k < decoded@.len() ==> final(encoded)@[k] == sym_of(
                    self.chars(),
                    decoded@[k],
                ) as Char,
            forall|k: int|
                0 <= k < decoded@.len() ==> (final(encoded)@[k] as int) < self.chars().len()
                    && self.chars()[final(encoded)@[k] as int] == decoded@[k],
    {
        let n = decoded.len();
        let mut k: usize = 0;
        while k < n
            invariant
                k <= n == decoded@.len(),
                encoded@.len() == n,
                self.wf(),
                forall|t: int|
                    0 <= t < decoded@.len() ==> self.chars().contains(#[trigger] decoded@[t]),
                forall|t: int|
                    0 <= t < k ==> encoded@[t] == sym_of(self.chars(), decoded@[t]) as Char,
                forall|t: int|
                    0 <= t < k ==> (encoded@[t] as int) < self.chars().len() && self.chars()[
                        encoded@[t] as int
                    ] == decoded@[t],
            decreases n - k,
        {
            let s = self.encode_char(decoded[k]);
            encoded.set(k, s as Char);
            k = k + 1;
        }
    }

    /// Decode `encoded` into the pre-sized buffer `decoded`: position `k`
    /// receives the human form of symbol `encoded[k]`.
    pub fn decode(&self, encoded: &Vec<Char>, decoded: &mut Vec<char>)
        requires
            forall|k: int|
                0 <= k < encoded@.len() ==> (#[trigger] encoded@[k] as int) < self.chars().len(),
            old(decoded)@.len() == encoded@.len(),
        ensures
            final(decoded)@.len() == encoded@.len(),
            forall|k: int|
                0 <= k < encoded@.len() ==> final(decoded)@[k] == self.chars()[encoded@[k] as int],
    {
        let n = encoded.len();
        let mut k: usize = 0;
        while k < n
            invariant
                k <= n == encoded@.len(),
                decoded@.len() == n,
                forall|t: int|
                    0 <= t < encoded@.len() ==> (#[trigger] encoded@[t] as int)
                        < self.chars().len(),
                forall|t: int| 0 <= t < k ==> decoded@[t] == self.chars()[encoded@[t] as int],
            decreases n - k,
        {
            let c = self.alphabet[encoded[k] as usize];
            decoded.set(k, c);
            k = k + 1;
        }
    }

    /// Encode a whole string into a fresh symbol buffer.
    pub fn encode_str(&self, decoded: &str) -> (r: Vec<Char>)
        requires
            self.wf(),
            forall|k: int| 0 <= k < decoded@.len() ==> self.chars().contains(#[trigger] decoded@[k]),
        ensures
            r@.len() == decoded@.len(),
            forall|k: int|
                0 <= k < decoded@.len() ==> r@[k] == sym_of(self.chars(), decoded@[k]) as Char,
            forall|k: int|
                0 <= k < decoded@.len() ==> (r@[k] as int) < self.chars().len() && self.chars()[
                    r@[k] as int
                ] == decoded@[k],
    {
        let n = decoded.unicode_len();
        let mut chars: Vec<char> = Vec::new();
        let mut i: usize = 0;
        while i < n
            invariant
                i <= n == decoded@.len(),
                chars@ == decoded@.subrange(0, i as int),
            decreases n - i,
        {
            chars.push(decoded.get_char(i));
            proof {
                assert(chars@ =~= decoded@.subrange(0, i + 1));
            }
            i = i + 1;
        }
        proof {
            assert(chars@ =~= decoded@);
        }
        let mut encoded: Vec<Char> = Vec::new();
        let mut i: usize = 0;
        while i < n
            invariant
                i <= n,
                encoded@.len() == i,
            decreases n - i,
        {
            encoded.push(0);
            i = i + 1;
        }
        self.encode(&chars, &mut encoded);
        encoded
    }

    /// Decode a whole symbol buffer into a fresh string.
    pub fn decode_str(&self, encoded: &Vec<Char>) -> (r: String)
        requires
            forall|k: int|
                0 <= k < encoded@.len() ==> (#[trigger] encoded@[k] as int) < self.chars().len(),
        ensures
            r@.len() == encoded@.len(),
            forall|k: int| 0 <= k < encoded@.len() ==> r@[k] == self.chars()[encoded@[k] as int],
    {
        let n = encoded.len();
        let mut r = String::new();
        let mut k: usize = 0;
        while k < n
            invariant
                k <= n == encoded@.len(),
                r@.len() == k,
                forall|t: int|
                    0 <= t < encoded@.len() ==> (#[trigger] encoded@[t] as int)
                        < self.chars().len(),
                forall|t: int| 0 <= t < k ==> r@[t] == self.chars()[encoded@[t] as int],
            decreases n - k,
        {
            let c = self.alphabet[encoded[k] as usize];
            push_char(&mut r, c);
            k = k + 1;
        }
        r
    }
}

/// Relies on std's `String::push`: appending one character to the end of a
/// string.  vstd gives `push` no specification of its own.
#[verifier::external_body]
pub(crate) fn push_char(s: &mut String, c: char)
    ensures
        final(s)@ == old(s)@.push(c),
{
    s.push(c);
}

/// The number of symbol grams of width `n`: 256 to the `n`th power.
pub open spec fn gram_cap(n: nat) -> int
    decreases n,
{
    if n == 0 {
        1
    } else {
        256 * gram_cap((n - 1) as nat)
    }
}

/// The integer identity of a symbol gram: its base-256 value, first symbol
/// most significant.
pub open spec fn gram_id(g: Seq<u8>) -> int
    decreases g.len(),
{
    if g.len() == 0 {
        0
    } else {
        gram_id(g.drop_last()) * 256 + g.last()
    }
}

/// A gram's identity lies below the cap for its width.
pub proof fn lemma_gram_id_bounds(g: Seq<u8>)
    ensures
        0 <= gram_id(g) < gram_cap(g.len()),
    decreases g.len(),
{
    if g.len() > 0 {
        lemma_gram_id_bounds(g.drop_last());
    }
}

/// Caps of wider grams are at least as large.
pub proof fn lemma_gram_cap_le(a: nat, b: nat)
    requires
        a <= b,
    ensures
        gram_cap(a) <= gram_cap(b),
        gram_cap(a) >= 1,
    decreases b,
{
    if a < b {
        lemma_gram_cap_le(a, (b - 1) as nat);
    } else if b > 0 {
        lemma_gram_cap_le((a - 1) as nat, (b - 1) as nat);
    }
}

/// Grams of width eight still have identities that fit a `u64`.
pub proof fn lemma_gram_cap_eight()
    ensures
        gram_cap(8) == 0x10000000000000000,
{
    assert(gram_cap(0) == 1);
    assert(gram_cap(1) == 256);
    assert(gram_cap(2) == 0x10000);
    assert(gram_cap(3) == 0x1000000);
    assert(gram_cap(4) == 0x100000000);
    assert(gram_cap(5) == 0x10000000000);
    assert(gram_cap(6) == 0x1000000000000);
    assert(gram_cap(7) == 0x100000000000000);
}

/// Law: two grams of equal width share an identity only if they read the
/// same, so a lookup keyed by identity is a lookup of the gram itself.
pub proof fn lemma_gram_id_injective(a: Seq<u8>, b: Seq<u8>)
    requires
        a.len() == b.len(),
        gram_id(a) == gram_id(b),
    ensures
        a == b,
    decreases a.len(),
{
    if a.len() > 0 {
        lemma_gram_id_bounds(a.drop_last());
        lemma_gram_id_bounds(b.drop_last());
        assert(a.last() == b.last());
        lemma_gram_id_injective(a.drop_last(), b.drop_last());
        assert forall|i: int| 0 <= i < a.len() implies a[i] == b[i] by {
            if i < a.len() - 1 {
                assert(a[i] == a.drop_last()[i]);
                assert(b[i] == b.drop_last()[i]);
            } else {
                assert(a[i] == a.last());
                assert(b[i] == b.last());
            }
        };
        assert(a =~= b);
    } else {
        assert(a =~= b);
    }
}

/// The gram `g` of characters re-expressed as symbols of alphabet `alpha`.
pub open spec fn encode_gram(alpha: Seq<char>, g: Seq<char>) -> Seq<u8> {
    Seq::new(g.len(), |i: int| sym_of(alpha, g[i]) as u8)
}

/// Two character grams of equal width that encode to the same symbols read
/// the same, provided the alphabet holds each of their characters.
pub proof fn lemma_encode_gram_injective(alpha: Seq<char>, a: Seq<char>, b: Seq<char>)
    requires
        distinct_chars(alpha),
        alpha.len() <= 256,
        a.len() == b.len(),
        forall|k: int| 0 <= k < a.len() ==> alpha.contains(#[trigger] a[k]),
        forall|k: int| 0 <= k < b.len() ==> alpha.contains(#[trigger] b[k]),
        encode_gram(alpha, a) == encode_gram(alpha, b),
    ensures
        a == b,
{
    assert forall|k: int| 0 <= k < a.len() implies a[k] == b[k] by {
        lemma_encoding_round_trip(alpha, 0, a[k]);
        lemma_encoding_round_trip(alpha, 0, b[k]);
        let sa = sym_of(alpha, a[k]);
        let sb = sym_of(alpha, b[k]);
        assert(encode_gram(alpha, a)[k] == encode_gram(alpha, b)[k]);
        assert(encode_gram(alpha, a)[k] == sa as u8);
        assert(encode_gram(alpha, b)[k] == sb as u8);
        assert(0 <= sa < alpha.len() && 0 <= sb < alpha.len());
        assert(sa as u8 == sb as u8);
        assert(sa == sb);
        assert(a[k] == alpha[sa] && b[k] == alpha[sb]);
    };
    assert(a =~= b);
}

/// The score of the width-`n` window of `s` starting at `i`: the table's
/// entry for the window's gram, or `floor` when the table has none.
pub open spec fn window_score(s: Seq<u8>, tbl: Map<u64, i64>, floor: int, n: nat, i: int) -> int {
    let g = gram_id(s.subrange(i, i + n));
    if tbl.contains_key(g as u64) {
        tbl[g as u64] as int
    } else {
        floor
    }
}

/// The sum of the scores of the first `k` width-`n` windows of `s`.
pub open spec fn score_upto(s: Seq<u8>, tbl: Map<u64, i64>, floor: int, n: nat, k: int) -> int
    decreases k,
{
    if k <= 0 {
        0
    } else {
        score_upto(s, tbl, floor, n, k - 1) + window_score(s, tbl, floor, n, k - 1)
    }
}

/// The score of a whole buffer: the sum over all its width-`n` windows, and
/// zero when the buffer is shorter than a window.
pub open spec fn score_of(s: Seq<u8>, tbl: Map<u64, i64>, floor: int, n: nat) -> int {
    if s.len() < n {
        0
    } else {
        score_upto(s, tbl, floor, n, s.len() - n + 1)
    }
}

/// Partial window sums stay within `k` scores of the cap range.
pub proof fn lemma_score_upto_bounds(s: Seq<u8>, tbl: Map<u64, i64>, floor: int, n: nat, k: int)
    requires
        0 <= floor <= crate::SCORE_CAP,
        forall|key: u64| tbl.contains_key(key) ==> 0 <= #[trigger] tbl[key] <= crate::SCORE_CAP,
        k >= 0,
    ensures
        0 <= score_upto(s, tbl, floor, n, k) <= k * (crate::SCORE_CAP as int),
    decreases k,
{
    if k > 0 {
        lemma_score_upto_bounds(s, tbl, floor, n, k - 1);
    }
}

/// A language model over symbol grams: each width-`n` gram, keyed by its
/// identity, carries a score in microunits; grams outside the table score
/// `floor`.
pub struct Frequency {
    table: HashMap<u64, i64>,
    n: usize,
    floor: i64,
}

impl Frequency {
    /// The score table, keyed by gram identity.
    pub closed spec fn table_view(&self) -> Map<u64, i64> {
        self.table@
    }

    /// The gram width.
    pub closed spec fn spec_n(&self) -> usize {
        self.n
    }

    /// The score of grams absent from the table.
    pub closed spec fn spec_floor(&self) -> i64 {
        self.floor
    }

    /// The width is in the supported range and the floor and every stored
    /// score lie within the cap.
    pub open spec fn wf(&self) -> bool {
        &&& 1 <= self.spec_n() <= 8
        &&& 0 <= self.spec_floor() <= crate::SCORE_CAP
        &&& forall|k: u64|
            self.table_view().contains_key(k) ==> 0 <= #[trigger] self.table_view()[k]
                <= crate::SCORE_CAP
    }

    /// The score this model gives a buffer.
    pub open spec fn score_spec(&self, s: Seq<u8>) -> int {
        score_of(s, self.table_view(), self.spec_floor() as int, self.spec_n() as nat)
    }

    /// Re-express a human-character model in symbol space: each gram of
    /// `frequency` is encoded through `encoding` and keyed by its identity.
    pub fn new(frequency: &crate::stats::Frequency, encoding: &Encoding) -> (r: Self)
        requires
            frequency.wf(),
            encoding.wf(),
            forall|i: int, k: int|
                0 <= i < frequency.rows().len() && 0 <= k < (
                #[trigger] frequency.rows()[i]).0@.len() ==> encoding.chars().contains(
                    #[trigger] frequency.rows()[i].0@[k],
                ),
        ensures
            r.wf(),
            r.spec_n() == frequency.spec_n(),
            r.spec_floor() == frequency.spec_floor(),
            forall|i: int|
                0 <= i < frequency.rows().len() ==> {
                    let key = gram_id(
                        encode_gram(encoding.chars(), (#[trigger] frequency.rows()[i]).0@),
                    ) as u64;
                    r.table_view().contains_key(key) && r.table_view()[key]
                        == frequency.rows()[i].1
                },
            forall|key: u64|
                r.table_view().contains_key(key) ==> exists|i: int|
                    0 <= i < frequency.rows().len() && key == gram_id(
                        encode_gram(encoding.chars(), (#[trigger] frequency.rows()[i]).0@),
                    ) as u64,
    {
        let mut table: HashMap<u64, i64> = HashMap::new();
        let count = frequency.len();
        let mut i: usize = 0;
        while i < count
            invariant
                i <= count == frequency.rows().len(),
                frequency.wf(),
                encoding.wf(),
                forall|t: int, k: int|
                    0 <= t < frequency.rows().len() && 0 <= k < (
                    #[trigger] frequency.rows()[t]).0@.len() ==> encoding.chars().contains(
                        #[trigger] frequency.rows()[t].0@[k],
                    ),
                forall|k: u64|
                    table@.contains_key(k) ==> 0 <= #[trigger] table@[k] <= crate::SCORE_CAP,
                forall|t: int|
                    0 <= t < i ==> {
                        let key = gram_id(
                            encode_gram(encoding.chars(), (#[trigger] frequency.rows()[t]).0@),
                        ) as u64;
                        table@.contains_key(key) && table@[key] == frequency.rows()[t].1
                    },
                forall|key: u64|
                    table@.contains_key(key) ==> exists|t: int|
                        0 <= t < i && key == gram_id(
                            encode_gram(encoding.chars(), (#[trigger] frequency.rows()[t]).0@),
                        ) as u64,
            decreases count - i,
        {
            let gram = frequency.gram_at(i);
            let n = gram.len();
            let mut symbols: Vec<Char> = Vec::new();
            let mut j: usize = 0;
            while j < n
                invariant
                    j <= n,
                    symbols@.len() == j,
                decreases n - j,
            {
                symbols.push(0);
                j = j + 1;
            }
            proof {
                assert forall|k: int| 0 <= k < gram@.len() implies encoding.chars().contains(
                    #[trigger] gram@[k],
                ) by {
                    assert(frequency.rows()[i as int].0@[k] == gram@[k]);
                };
            }
            encoding.encode(&gram, &mut symbols);
            proof {
                assert(symbols@ =~= encode_gram(encoding.chars(), gram@));
                lemma_gram_cap_le(symbols@.len() as nat, 8);
                lemma_gram_cap_eight();
                lemma_gram_id_bounds(symbols@);
            }
            let key = pack_gram(&symbols);
            let value = frequency.score_at(i);
            proof {
                let chars = encoding.chars();
                let gi = frequency.rows()[i as int].0@;
                assert(gram_id(encode_gram(chars, gi)) as u64 == key);
                assert forall|t: int|
                    0 <= t < i implies gram_id(
                    encode_gram(chars, (#[trigger] frequency.rows()[t]).0@),
                ) as u64 != key by {
                    let gt = frequency.rows()[t].0@;
                    let et = encode_gram(chars, gt);
                    let ei = encode_gram(chars, gi);
                    lemma_gram_id_bounds(et);
                    lemma_gram_id_bounds(ei);
                    lemma_gram_cap_le(et.len() as nat, 8);
                    lemma_gram_cap_le(ei.len() as nat, 8);
                    lemma_gram_cap_eight();
                    if gram_id(et) as u64 == key {
                        assert(gram_id(et) == gram_id(ei));
                        lemma_gram_id_injective(et, ei);
                        lemma_encode_gram_injective(chars, gt, gi);
                        assert(gt == gi);
                        assert(false);
                    }
                };
            }
            table.insert(key, value);
            i = i + 1;
        }
        Self { table, n: frequency.n(), floor: frequency.floor_value() }
    }

    /// The model's score for `glyphs`: the sum over every width-`n` window
    /// of the stored score of its gram, or of the floor when the gram is
    /// absent.
    pub fn score(&self, glyphs: &Vec<Char>) -> (r: i64)
        requires
            self.wf(),
            glyphs@.len() <= crate::LEN_CAP,
        ensures
            r == self.score_spec(glyphs@),
            0 <= r <= glyphs@.len() * (crate::SCORE_CAP as int),
    {
        proof {
            if glyphs@.len() >= self.spec_n() {
                lemma_score_upto_bounds(
                    glyphs@,
                    self.table_view(),
                    self.spec_floor() as int,
                    self.spec_n() as nat,
                    glyphs@.len() - self.spec_n() + 1,
                );
            }
        }
        if glyphs.len() < self.n {
            return 0;
        }
        let count = (glyphs.len() - self.n) + 1;
        let mut acc: i64 = 0;
        let mut i: usize = 0;
        while i < count
            invariant
                i <= count,
                count + self.spec_n() == glyphs@.len() + 1,
                glyphs@.len() <= crate::LEN_CAP,
                self.wf(),
                acc == score_upto(
                    glyphs@,
                    self.table_view(),
                    self.spec_floor() as int,
                    self.spec_n() as nat,
                    i as int,
                ),
                0 <= acc <= i * (crate::SCORE_CAP as int),
            decreases count - i,
        {
            let to = i + self.n;
            let mut g: u64 = 0;
            let mut j: usize = i;
            proof {
                assert(glyphs@.subrange(i as int, i as int) =~= Seq::<u8>::empty());
            }
            while j < to
                invariant
                    i <= j <= to <= glyphs@.len(),
                    to == i + self.spec_n(),
                    self.wf(),
                    g == gram_id(glyphs@.subrange(i as int, j as int)),
                    0 <= g < gram_cap((j - i) as nat),
                decreases to - j,
            {
                proof {
                    let pre = glyphs@.subrange(i as int, j as int);
                    let post = glyphs@.subrange(i as int, j + 1);
                    assert(post.drop_last() =~= pre);
                    assert(post.last() == glyphs@[j as int]);
                    lemma_gram_cap_le((j + 1 - i) as nat, 8);
                    lemma_gram_cap_eight();
                }
                g = g * 256 + (glyphs[j] as u64);
                j = j + 1;
            }
            let v = match self.table.get(&g) {
                Some(v) => *v,
                None => self.floor,
            };
            proof {
                let window = glyphs@.subrange(i as int, i + self.spec_n());
                lemma_gram_id_bounds(window);
                lemma_gram_cap_le(window.len() as nat, 8);
                lemma_gram_cap_eight();
                assert(gram_id(window) as u64 == g);
                assert(v == window_score(
                    glyphs@,
                    self.table_view(),
                    self.spec_floor() as int,
                    self.spec_n() as nat,
                    i as int,
                ));
                lemma_score_upto_bounds(
                    glyphs@,
                    self.table_view(),
                    self.spec_floor() as int,
                    self.spec_n() as nat,
                    i as int,
                );
            }
            acc = acc + v;
            i = i + 1;
        }
        acc
    }

    /// The gram width.
    pub fn n(&self) -> (r: usize)
        ensures
            r == self.spec_n(),
    {
        self.n
    }

    /// The score of grams absent from the table.
    pub fn floor_value(&self) -> (r: i64)
        ensures
            r == self.spec_floor(),
    {
        self.floor
    }
}

/// The identity of the gram held in `symbols`.
fn pack_gram(symbols: &Vec<u8>) -> (r: u64)
    requires
        symbols@.len() <= 8,
    ensures
        r == gram_id(symbols@),
{
    let len = symbols.len();
    let mut g: u64 = 0;
    let mut j: usize = 0;
    proof {
        assert(symbols@.subrange(0, 0) =~= Seq::<u8>::empty());
    }
    while j < len
        invariant
            j <= len == symbols@.len() <= 8,
            g == gram_id(symbols@.subrange(0, j as int)),
            0 <= g < gram_cap(j as nat),
        decreases len - j,
    {
        proof {
            let pre = symbols@.subrange(0, j as int);
            let post = symbols@.subrange(0, j + 1);
            assert(post.drop_last() =~= pre);
            assert(post.last() == symbols@[j as int]);
            lemma_gram_cap_le((j + 1) as nat, 8);
            lemma_gram_cap_eight();
        }
        g = g * 256 + (symbols[j] as u64);
        j = j + 1;
    }
    proof {
        assert(symbols@.subrange(0, len as int) =~= symbols@);
    }
    g
}

/// Law: a buffer holding exactly one window scores that window — the stored
/// value when the model holds the window's gram, the floor when it does not.
pub proof fn lemma_frequency_floor(f: &Frequency, s: Seq<u8>)
    requires
        f.wf(),
        s.len() == f.spec_n(),
    ensures
        f.table_view().contains_key(gram_id(s) as u64) ==> f.score_spec(s) == f.table_view()[
            gram_id(s) as u64],
        !f.table_view().contains_key(gram_id(s) as u64) ==> f.score_spec(s) == f.spec_floor(),
{
    let n = f.spec_n() as nat;
    lemma_gram_id_bounds(s);
    lemma_gram_cap_le(s.len() as nat, 8);
    lemma_gram_cap_eight();
    assert(s.subrange(0, n as int) =~= s);
    assert(score_upto(s, f.table_view(), f.spec_floor() as int, n, 0) == 0);
    assert(f.score_spec(s) == score_upto(
        s,
        f.table_view(),
        f.spec_floor() as int,
        n,
        1,
    ));
    assert(score_upto(s, f.table_view(), f.spec_floor() as int, n, 1) == window_score(
        s,
        f.table_view(),
        f.spec_floor() as int,
        n,
        0,
    ));
}

/// Law: within a well-formed encoding the two directions invert each other.
/// Encoding the character of symbol `s` yields `s` again, and decoding the
/// symbol of a character `c` of the alphabet yields `c` again.
pub proof fn lemma_encoding_round_trip(alpha: Seq<char>, s: int, c: char)
    requires
        distinct_chars(alpha),
        0 <= s < alpha.len(),
        alpha.contains(c),
    ensures
        sym_of(alpha, alpha[s]) == s,
        alpha[sym_of(alpha, c)] == c,
        0 <= sym_of(alpha, c) < alpha.len(),
{
    assert(exists|i: int| 0 <= i < alpha.len() && alpha[i] == alpha[s]) by {
        assert(alpha[s] == alpha[s]);
    }
    let w = sym_of(alpha, alpha[s]);
    assert(0 <= w < alpha.len() && alpha[w] == alpha[s]);
    let v = choose|i: int| 0 <= i < alpha.len() && alpha[i] == c;
    assert(0 <= sym_of(alpha, c) < alpha.len() && alpha[sym_of(alpha, c)] == c);
}

} // verus!
