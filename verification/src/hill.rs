//! The stochastic hill-climbing search engine.

use vstd::prelude::*;
use std::io::Write;
use crate::encoding::{Alphabet, Char, Encoding, Frequency};
use crate::key::{Crib, Key};

verus! {

/// One kind of key perturbation the search may apply when it stalls.
pub enum Perturbation {
    /// Leave the key as it is.
    Keep,
    /// Rewrite the last three positions with uniform plaintext symbols.
    Putc,
    /// Exchange two uniformly chosen loose positions.
    LooseSwap,
}

/// How the starting run key is installed.
pub enum KeyInit {
    /// Keep the run key the climber already holds.
    Keep,
    /// Pair cipher and plaintext symbols without replacement.
    Paired,
    /// Seed from a plaintext-symbol distribution in microunits.
    Distribution(Vec<u64>),
}

/// Configuration of one climb: the sweep count, the stall counters measured
/// in rejected proposals, and the key policies.
pub struct Config {
    pub cycle: usize,
    pub derive_cycle: usize,
    pub mutate_cycle: usize,
    pub init_key: KeyInit,
    pub derive_key: Perturbation,
    pub mutate_key: Perturbation,
    pub report: bool,
}

/// Whether both stall perturbations only exchange loose positions or do
/// nothing: such a climb never rewrites a fixed position and never changes
/// the multiset of the run key's values.
pub open spec fn swaps_only(config: &Config) -> bool {
    &&& (config.derive_key is Keep || config.derive_key is LooseSwap)
    &&& (config.mutate_key is Keep || config.mutate_key is LooseSwap)
}

/// Whether both stall perturbations leave the run key untouched: such a
/// climb changes the run key only by its own scored-and-accepted swaps.
pub open spec fn no_perturbation(config: &Config) -> bool {
    config.derive_key is Keep && config.mutate_key is Keep
}

/// The pointwise decoding of `cipher` under `key`.
pub open spec fn decode_spec(key: Seq<u8>, cipher: Seq<u8>) -> Seq<u8> {
    Seq::new(cipher.len(), |k: int| key[cipher[k] as int])
}

/// The energy of a decoded buffer: its model score, scaled by `ENERGY_VALUE`
/// and normalized by the buffer length.
pub open spec fn energy_spec(model: &Frequency, s: Seq<u8>) -> int {
    model.score_spec(s) * (crate::ENERGY_VALUE as int) / (s.len() as int)
}

/// Whether `key` maps some cipher symbol to every plaintext symbol below `p`.
pub open spec fn covers_all(key: Seq<u8>, p: int) -> bool {
    forall|v: int| 0 <= v < p ==> key.contains(#[trigger] (v as u8))
}

/// `key` after overwriting each position listed in `fixed` with `fix`'s
/// value there.
pub open spec fn overwrite_fixed(key: Seq<u8>, fix: Seq<u8>, fixed: Seq<usize>) -> Seq<u8>
    decreases fixed.len(),
{
    if fixed.len() == 0 {
        key
    } else {
        overwrite_fixed(key, fix, fixed.drop_last()).update(
            fixed.last() as int,
            fix[fixed.last() as int],
        )
    }
}

/// Overwriting the fixed positions pins exactly those positions to `fix` and
/// leaves every other position alone.
pub proof fn lemma_overwrite_fixed_props(key: Seq<u8>, fix: Seq<u8>, fixed: Seq<usize>)
    requires
        crate::util::distinct_seq(fixed),
        forall|t: int| 0 <= t < fixed.len() ==> (#[trigger] fixed[t] as int) < key.len(),
        fix.len() == key.len(),
    ensures
        overwrite_fixed(key, fix, fixed).len() == key.len(),
        forall|t: int|
            0 <= t < fixed.len() ==> overwrite_fixed(key, fix, fixed)[#[trigger] fixed[t] as int]
                == fix[fixed[t] as int],
        forall|p: int|
            0 <= p < key.len() && !fixed.contains(p as usize) ==> overwrite_fixed(
                key,
                fix,
                fixed,
            )[p] == key[p],
    decreases fixed.len(),
{
    if fixed.len() > 0 {
        lemma_overwrite_fixed_props(key, fix, fixed.drop_last());
        let inner = overwrite_fixed(key, fix, fixed.drop_last());
        let last = fixed.last() as int;
        let r = overwrite_fixed(key, fix, fixed);
        assert(r == inner.update(last, fix[last]));
        assert forall|t: int|
            0 <= t < fixed.len() implies r[#[trigger] fixed[t] as int] == fix[fixed[t] as int] by {
            if t < fixed.len() - 1 {
                assert(fixed.drop_last()[t] == fixed[t]);
                assert(fixed[t] != fixed.last());
            }
        };
        assert forall|p: int|
            0 <= p < key.len() && !fixed.contains(p as usize) implies r[p] == key[p] by {
            assert(fixed[fixed.len() - 1] == fixed.last());
            assert(p as usize != fixed.last());
            assert(!fixed.drop_last().contains(p as usize)) by {
                if fixed.drop_last().contains(p as usize) {
                    let t = choose|t: int|
                        0 <= t < fixed.drop_last().len() && fixed.drop_last()[t] == p as usize;
                    assert(fixed[t] == p as usize);
                }
            };
        };
    }
}

/// Law: homophonic surjection preservation — exchanging two positions of a
/// key keeps every plaintext symbol it covered covered, so a climb that only
/// swaps preserves surjectivity.
pub proof fn lemma_swap_preserves_coverage(s: Seq<u8>, i: int, j: int, p: int)
    requires
        0 <= i < s.len(),
        0 <= j < s.len(),
    ensures
        covers_all(s, p) ==> covers_all(s.update(i, s[j]).update(j, s[i]), p),
{
    let s2 = s.update(i, s[j]).update(j, s[i]);
    if covers_all(s, p) {
        assert forall|v: int| 0 <= v < p implies s2.contains(#[trigger] (v as u8)) by {
            assert(s.contains(v as u8));
            let k = choose|k: int| 0 <= k < s.len() && s[k] == v as u8;
            if k == i {
                assert(s2[j] == v as u8);
            } else if k == j {
                if i == j {
                    assert(s2[j] == v as u8);
                } else {
                    assert(s2[i] == v as u8);
                }
            } else {
                assert(s2[k] == v as u8);
            }
        };
    }
}

/// Why a crib was rejected.
#[derive(Clone, Copy, Debug, PartialEq, Eq, Structural)]
pub enum CribError {
    /// The crib runs past the end of the ciphertext.
    Misaligned,
    /// The crib demands that one cipher symbol decode to two different
    /// plaintext symbols.
    Conflict,
}

/// The climber: the ciphertext, its encodings, the three keys, the energies
/// of the current and the best decoding, and the crib partition.
pub struct Climber {
    pub cipher_encoding: Encoding,
    pub cipher_alphabet: Alphabet,
    pub output_encoding: Encoding,
    pub output_alphabet: Alphabet,
    pub cipher_buf: Vec<Char>,
    pub output_buf: Vec<Char>,
    pub top_key: Key,
    pub run_key: Key,
    pub fix_key: Key,
    pub run_energy: i64,
    pub top_energy: i64,
    pub crib: Crib,
}

impl Climber {
    /// The cipher alphabet size: the length of each key.
    pub open spec fn key_len(&self) -> int {
        self.cipher_alphabet.spec_len() as int
    }

    /// The plaintext alphabet size.
    pub open spec fn out_len(&self) -> int {
        self.output_alphabet.spec_len() as int
    }

    /// The climber invariant: alphabets sized for eight-bit symbols, keys as
    /// long as the cipher alphabet, every key value and buffer symbol in
    /// range, matching buffer lengths, and a well-formed crib partition.
    pub open spec fn wf(&self) -> bool {
        &&& 1 <= self.key_len() <= 255
        &&& 1 <= self.out_len() <= 255
        &&& self.output_encoding.wf()
        &&& self.cipher_encoding.wf()
        &&& self.out_len() == self.output_encoding.chars().len()
        &&& self.run_key@.len() == self.key_len()
        &&& self.top_key@.len() == self.key_len()
        &&& self.fix_key@.len() == self.key_len()
        &&& self.output_buf@.len() == self.cipher_buf@.len()
        &&& 1 <= self.cipher_buf@.len() <= crate::LEN_CAP
        &&& forall|k: int|
            0 <= k < self.cipher_buf@.len() ==> (#[trigger] self.cipher_buf@[k] as int)
                < self.key_len()
        &&& forall|k: int|
            0 <= k < self.run_key@.len() ==> (#[trigger] self.run_key@[k] as int) < self.out_len()
        &&& forall|k: int|
            0 <= k < self.top_key@.len() ==> (#[trigger] self.top_key@[k] as int) < self.out_len()
        &&& forall|k: int|
            0 <= k < self.fix_key@.len() ==> (#[trigger] self.fix_key@[k] as int) < self.out_len()
        &&& self.crib.wf(self.key_len() as nat)
    }

    /// A fresh climber over `cipher_buf`: the cipher alphabet is the
    /// encoding's alphabet grown by the homophone ratio (in microunits), the
    /// keys are zeroed, both energies sit at `MIN_ENERGY`, and every key
    /// position is loose.
    pub fn new(
        cipher_buf: Vec<Char>,
        cipher_encoding: Encoding,
        output_encoding: Encoding,
        homophone_ratio: u64,
    ) -> (r: Self)
        requires
            output_encoding.wf(),
            cipher_encoding.wf(),
            1 <= output_encoding.chars().len() <= 255,
            1 <= cipher_encoding.chars().len(),
            cipher_encoding.chars().len() + cipher_encoding.chars().len() * homophone_ratio / (
            crate::SCALE as int) <= 255,
            1 <= cipher_buf@.len() <= crate::LEN_CAP,
            forall|k: int|
                0 <= k < cipher_buf@.len() ==> (#[trigger] cipher_buf@[k] as int)
                    < cipher_encoding.chars().len(),
        ensures
            r.wf(),
            r.cipher_encoding == cipher_encoding,
            r.output_encoding == output_encoding,
            r.cipher_buf@ == cipher_buf@,
            r.key_len() == cipher_encoding.chars().len() + cipher_encoding.chars().len()
                * homophone_ratio / (crate::SCALE as int),
            r.out_len() == output_encoding.chars().len(),
            r.run_energy == crate::MIN_ENERGY,
            r.top_energy == crate::MIN_ENERGY,
            r.crib.fixed@.len() == 0,
            r.crib.loose@.len() == r.key_len(),
            forall|i: int| 0 <= i < r.key_len() ==> r.crib.loose@[i] == i as usize,
            forall|i: int| 0 <= i < r.key_len() ==> r.run_key@[i] == 0u8,
            forall|i: int| 0 <= i < r.key_len() ==> r.top_key@[i] == 0u8,
            forall|i: int| 0 <= i < r.key_len() ==> r.fix_key@[i] == 0u8,
    {
        let output_alphabet = output_encoding.alphabet(0);
        let cipher_alphabet = cipher_encoding.alphabet(homophone_ratio);
        let len = cipher_alphabet.len();
        let fix_key = Key::new(len);
        let top_key = Key::new(len);
        let run_key = Key::new(len);
        let mut output_buf: Vec<Char> = Vec::new();
        let n = cipher_buf.len();
        let mut k: usize = 0;
        while k < n
            invariant
                k <= n,
                output_buf@.len() == k,
            decreases n - k,
        {
            output_buf.push(0);
            k = k + 1;
        }
        let crib = Crib::new(len);
        Self {
            cipher_encoding,
            output_encoding,
            cipher_alphabet,
            output_alphabet,
            cipher_buf,
            output_buf,
            fix_key,
            run_key,
            top_key,
            run_energy: crate::MIN_ENERGY,
            top_energy: crate::MIN_ENERGY,
            crib,
        }
    }
}

/// The parts of a climber that no operation after construction changes: the
/// encodings, the alphabets, and the ciphertext.
pub open spec fn same_frame(a: &Climber, b: &Climber) -> bool {
    &&& b.cipher_encoding == a.cipher_encoding
    &&& b.output_encoding == a.output_encoding
    &&& b.cipher_alphabet == a.cipher_alphabet
    &&& b.output_alphabet == a.output_alphabet
    &&& b.cipher_buf@ == a.cipher_buf@
}

/// The parts of a climber that only a climb changes: the keys, the energies,
/// and the decoded buffer.
pub open spec fn same_search_state(a: &Climber, b: &Climber) -> bool {
    &&& b.output_buf@ == a.output_buf@
    &&& b.run_key@ == a.run_key@
    &&& b.top_key@ == a.top_key@
    &&& b.run_energy == a.run_energy
    &&& b.top_energy == a.top_energy
}

/// Whether one of the first `upto` crib positions anchors cipher symbol `x`.
pub open spec fn is_crib_symbol(cipher: Seq<u8>, offset: int, upto: int, x: u8) -> bool {
    exists|t: int| 0 <= t < upto && #[trigger] cipher[offset + t] == x
}

/// Whether anchoring `dec` at `offset` contradicts itself or the already
/// fixed key positions: some cipher symbol would have to decode to two
/// different plaintext symbols.
pub open spec fn crib_conflict(c: &Climber, offset: int, dec: Seq<u8>) -> bool {
    ||| exists|i: int, j: int|
        0 <= i < j < dec.len() && c.cipher_buf@[offset + i] == c.cipher_buf@[offset + j] && dec[i]
            != dec[j]
    ||| exists|i: int|
        0 <= i < dec.len() && !c.crib.loose@.contains(#[trigger] c.cipher_buf@[offset + i] as usize)
            && c.fix_key@[c.cipher_buf@[offset + i] as int] != dec[i]
}

impl Climber {
    /// Pin cipher symbol `encoded_char` to plaintext symbol `decoded_char`:
    /// the fix key records the image and the position leaves the loose set.
    /// Pinning an already pinned symbol to the same image changes nothing;
    /// pinning it to a different one is rejected.
    pub fn crib_char(&mut self, encoded_char: Char, decoded_char: Char) -> (r: Result<
        (),
        CribError,
    >)
        requires
            old(self).wf(),
            (encoded_char as int) < old(self).key_len(),
            (decoded_char as int) < old(self).out_len(),
        ensures
            final(self).wf(),
            same_frame(old(self), final(self)),
            same_search_state(old(self), final(self)),
            r is Err <==> (!old(self).crib.loose@.contains(encoded_char as usize) && old(
                self,
            ).fix_key@[encoded_char as int] != decoded_char),
            r is Err ==> r == Err::<(), CribError>(CribError::Conflict) && *final(self) == *old(
                self,
            ),
            r is Ok ==> {
                &&& final(self).fix_key@ == old(self).fix_key@.update(
                    encoded_char as int,
                    decoded_char,
                )
                &&& !final(self).crib.loose@.contains(encoded_char as usize)
                &&& final(self).crib.fixed@.contains(encoded_char as usize)
                &&& forall|x: usize|
                    x != encoded_char as usize ==> (final(self).crib.loose@.contains(x)
                        <==> old(self).crib.loose@.contains(x))
                &&& forall|x: usize|
                    x != encoded_char as usize ==> (final(self).crib.fixed@.contains(x)
                        <==> old(self).crib.fixed@.contains(x))
            },
    {
        let e = encoded_char as usize;
        let ghost pre = *self;
        match self.crib.find_loose_index(e) {
            Some(_) => {
                proof {
                    assert(pre.crib.loose@.contains(e));
                }
                self.fix_key.set(e, decoded_char);
                self.crib.fix(e);
                proof {
                    let k = choose|k: int|
                        0 <= k < pre.crib.loose@.len() && pre.crib.loose@[k] == e && self.crib.loose@
                            == pre.crib.loose@.remove(k) && self.crib.fixed@
                            == pre.crib.fixed@.push(e);
                    crate::util::lemma_remove_distinct(pre.crib.loose@, k);
                    assert(self.crib.wf(self.key_len() as nat));
                    assert(self.crib.fixed@[self.crib.fixed@.len() - 1] == e);
                    assert(self.crib.fixed@.contains(e));
                    assert forall|x: usize|
                        x != e implies (self.crib.fixed@.contains(x) <==> pre.crib.fixed@.contains(
                        x,
                    )) by {
                        if self.crib.fixed@.contains(x) {
                            let t = choose|t: int|
                                0 <= t < self.crib.fixed@.len() && self.crib.fixed@[t] == x;
                            assert(t < pre.crib.fixed@.len());
                            assert(pre.crib.fixed@[t] == x);
                        }
                        if pre.crib.fixed@.contains(x) {
                            let t = choose|t: int|
                                0 <= t < pre.crib.fixed@.len() && pre.crib.fixed@[t] == x;
                            assert(self.crib.fixed@[t] == x);
                        }
                    };
                    assert(!self.crib.loose@.contains(e));
                }
                Ok(())
            },
            None => {
                if self.fix_key.get(e) == decoded_char {
                    proof {
                        assert(self.fix_key@ =~= pre.fix_key@.update(e as int, decoded_char));
                        assert(self.crib.fixed@.contains(e)) by {
                            assert((e as int) < pre.key_len());
                        };
                    }
                    Ok(())
                } else {
                    Err(CribError::Conflict)
                }
            },
        }
    }

    /// Pin the cipher symbol that stands at buffer position `index` to
    /// plaintext symbol `decoded_char`; a position beyond the buffer is
    /// rejected.
    pub fn crib_char_at(&mut self, index: usize, decoded_char: Char) -> (r: Result<(), CribError>)
        requires
            old(self).wf(),
            (decoded_char as int) < old(self).out_len(),
        ensures
            final(self).wf(),
            same_frame(old(self), final(self)),
            same_search_state(old(self), final(self)),
            (index as int) >= old(self).cipher_buf@.len() ==> r == Err::<(), CribError>(
                CribError::Misaligned,
            ) && *final(self) == *old(self),
            (index as int) < old(self).cipher_buf@.len() ==> {
                let enc = old(self).cipher_buf@[index as int];
                &&& (r is Err <==> (!old(self).crib.loose@.contains(enc as usize) && old(
                    self,
                ).fix_key@[enc as int] != decoded_char))
                &&& (r is Err ==> r == Err::<(), CribError>(CribError::Conflict) && *final(self)
                    == *old(self))
                &&& (r is Ok ==> {
                    &&& final(self).fix_key@ == old(self).fix_key@.update(
                        enc as int,
                        decoded_char,
                    )
                    &&& !final(self).crib.loose@.contains(enc as usize)
                    &&& final(self).crib.fixed@.contains(enc as usize)
                    &&& forall|x: usize|
                        x != enc as usize ==> (final(self).crib.loose@.contains(x) <==> old(
                            self,
                        ).crib.loose@.contains(x))
                    &&& forall|x: usize|
                        x != enc as usize ==> (final(self).crib.fixed@.contains(x) <==> old(
                            self,
                        ).crib.fixed@.contains(x))
                })
            },
    {
        if index >= self.cipher_buf.len() {
            return Err(CribError::Misaligned);
        }
        let encoded_char = self.cipher_buf[index];
        self.crib_char(encoded_char, decoded_char)
    }

    /// Anchor the known plaintext `decoded` at buffer position `offset`:
    /// each cipher symbol that occurs there is pinned to the corresponding
    /// plaintext symbol.  A crib that runs past the buffer or that demands
    /// two images for one cipher symbol is rejected whole: nothing changes.
    #[verifier::rlimit(50)]
    #[verifier::spinoff_prover]
    pub fn crib_str(&mut self, offset: usize, decoded: &str) -> (r: Result<(), CribError>)
        requires
            old(self).wf(),
            forall|k: int|
                0 <= k < decoded@.len() ==> old(self).output_encoding.chars().contains(
                    #[trigger] decoded@[k],
                ),
        ensures
            final(self).wf(),
            same_frame(old(self), final(self)),
            same_search_state(old(self), final(self)),
            offset + decoded@.len() > old(self).cipher_buf@.len() ==> r == Err::<(), CribError>(
                CribError::Misaligned,
            ) && *final(self) == *old(self),
            offset + decoded@.len() <= old(self).cipher_buf@.len() ==> (r is Err <==> crib_conflict(
                old(self),
                offset as int,
                crate::encoding::encode_gram(old(self).output_encoding.chars(), decoded@),
            )),
            offset + decoded@.len() <= old(self).cipher_buf@.len() && r is Err ==> r == Err::<
                (),
                CribError,
            >(CribError::Conflict) && *final(self) == *old(self),
            offset + decoded@.len() <= old(self).cipher_buf@.len() && r is Ok ==> forall|t: int|
                0 <= t < decoded@.len() ==> {
                    let enc = #[trigger] old(self).cipher_buf@[offset + t];
                    &&& final(self).fix_key@[enc as int] == crate::encoding::encode_gram(
                        old(self).output_encoding.chars(),
                        decoded@,
                    )[t]
                    &&& final(self).crib.fixed@.contains(enc as usize)
                    &&& !final(self).crib.loose@.contains(enc as usize)
                },
            offset + decoded@.len() <= old(self).cipher_buf@.len() && r is Ok ==> forall|x: u8|
                #![trigger is_crib_symbol(old(self).cipher_buf@, offset as int, decoded@.len() as int, x)]
                (x as int) < old(self).key_len() && !is_crib_symbol(
                    old(self).cipher_buf@,
                    offset as int,
                    decoded@.len() as int,
                    x,
                ) ==> {
                    &&& final(self).fix_key@[x as int] == old(self).fix_key@[x as int]
                    &&& (final(self).crib.loose@.contains(x as usize) <==> old(
                        self,
                    ).crib.loose@.contains(x as usize))
                    &&& (final(self).crib.fixed@.contains(x as usize) <==> old(
                        self,
                    ).crib.fixed@.contains(x as usize))
                },
    {
        let n = decoded.unicode_len();
        if offset > self.cipher_buf.len() || n > self.cipher_buf.len() - offset {
            return Err(CribError::Misaligned);
        }
        let syms = self.output_encoding.encode_str(decoded);
        let ghost dec = crate::encoding::encode_gram(self.output_encoding.chars(), decoded@);
        proof {
            assert(syms@ =~= dec);
            assert forall|k: int| 0 <= k < dec.len() implies (#[trigger] dec[k] as int) < old(
                self,
            ).out_len() by {
                assert(syms@[k] == dec[k]);
                assert((syms@[k] as int) < self.output_encoding.chars().len());
            };
        }

        // First pass: reject a crib whose own positions disagree.
        let mut i: usize = 0;
        while i < n
            invariant
                i <= n == dec.len(),
                n == decoded@.len(),
                dec == crate::encoding::encode_gram(old(self).output_encoding.chars(), decoded@),
                forall|k: int| 0 <= k < dec.len() ==> (#[trigger] dec[k] as int) < old(self).out_len(),
                syms@ == dec,
                *self == *old(self),
                self.wf(),
                offset + n <= self.cipher_buf@.len(),
                forall|a: int, b: int|
                    0 <= a < b < n as int && a < i as int ==> !(self.cipher_buf@[offset + a]
                        == self.cipher_buf@[offset + b] && dec[a] != dec[b]),
            decreases n - i,
        {
            let mut j = i + 1;
            while j < n
                invariant
                    i < j <= n == dec.len(),
                    n == decoded@.len(),
                    dec == crate::encoding::encode_gram(old(self).output_encoding.chars(), decoded@),
                    syms@ == dec,
                    *self == *old(self),
                    self.wf(),
                    offset + n <= self.cipher_buf@.len(),
                    forall|b: int|
                        i < b < j as int ==> !(self.cipher_buf@[offset + i] == self.cipher_buf@[
                        offset + b] && dec[i as int] != dec[b]),
                decreases n - j,
            {
                if self.cipher_buf[offset + i] == self.cipher_buf[offset + j] && syms[i] != syms[j]
                {
                    proof {
                        assert(self.cipher_buf@[offset + i as int] == self.cipher_buf@[offset
                            + j as int] && dec[i as int] != dec[j as int]);
                        assert(crib_conflict(old(self), offset as int, dec));
                    }
                    return Err(CribError::Conflict);
                }
                j = j + 1;
            }
            i = i + 1;
        }

        // Second pass: reject a crib that contradicts an already fixed
        // position.
        let mut i: usize = 0;
        while i < n
            invariant
                i <= n == dec.len(),
                n == decoded@.len(),
                dec == crate::encoding::encode_gram(old(self).output_encoding.chars(), decoded@),
                forall|k: int| 0 <= k < dec.len() ==> (#[trigger] dec[k] as int) < old(self).out_len(),
                syms@ == dec,
                *self == *old(self),
                self.wf(),
                offset + n <= self.cipher_buf@.len(),
                forall|t: int|
                    0 <= t < i as int ==> (self.crib.loose@.contains(
                        #[trigger] self.cipher_buf@[offset + t] as usize,
                    ) || self.fix_key@[self.cipher_buf@[offset + t] as int] == dec[t]),
            decreases n - i,
        {
            let e = self.cipher_buf[offset + i];
            match self.crib.find_loose_index(e as usize) {
                Some(_) => {
                    proof {
                        assert(self.crib.loose@.contains(e as usize));
                    }
                },
                None => {
                    if self.fix_key.get(e as usize) != syms[i] {
                        proof {
                            assert(!self.crib.loose@.contains(
                                self.cipher_buf@[offset + i as int] as usize,
                            ) && self.fix_key@[self.cipher_buf@[offset + i as int] as int] != dec[
                            i as int]);
                            assert(crib_conflict(old(self), offset as int, dec));
                        }
                        return Err(CribError::Conflict);
                    }
                },
            }
            i = i + 1;
        }
        proof {
            assert(!crib_conflict(old(self), offset as int, dec));
        }

        // Apply: every pin now goes through.
        let mut i: usize = 0;
        while i < n
            invariant
                i <= n == dec.len(),
                n == decoded@.len(),
                dec == crate::encoding::encode_gram(old(self).output_encoding.chars(), decoded@),
                forall|k: int| 0 <= k < dec.len() ==> (#[trigger] dec[k] as int) < old(self).out_len(),
                syms@ == dec,
                self.wf(),
                same_frame(old(self), self),
                same_search_state(old(self), self),
                self.key_len() == old(self).key_len(),
                self.out_len() == old(self).out_len(),
                offset + n <= self.cipher_buf@.len(),
                !crib_conflict(old(self), offset as int, dec),
                forall|x: u8|
                    (x as int) < old(self).key_len() && !is_crib_symbol(
                        old(self).cipher_buf@,
                        offset as int,
                        i as int,
                        x,
                    ) ==> {
                        &&& self.fix_key@[x as int] == old(self).fix_key@[x as int]
                        &&& (self.crib.loose@.contains(x as usize) <==> old(
                            self,
                        ).crib.loose@.contains(x as usize))
                        &&& (self.crib.fixed@.contains(x as usize) <==> old(
                            self,
                        ).crib.fixed@.contains(x as usize))
                    },
                forall|t: int|
                    0 <= t < i as int ==> {
                        let enc = #[trigger] old(self).cipher_buf@[offset + t];
                        &&& self.fix_key@[enc as int] == dec[t]
                        &&& self.crib.fixed@.contains(enc as usize)
                        &&& !self.crib.loose@.contains(enc as usize)
                    },
            decreases n - i,
        {
            let e = self.cipher_buf[offset + i];
            let d = syms[i];
            proof {
                assert(old(self).cipher_buf@[offset + i] == e);
                assert((e as int) < self.key_len());
                assert(dec[i as int] == d);
                assert((d as int) < self.out_len());
                if !self.crib.loose@.contains(e as usize) && self.fix_key@[e as int] != d {
                    if is_crib_symbol(old(self).cipher_buf@, offset as int, i as int, e) {
                        let t = choose|t: int|
                            0 <= t < i as int && #[trigger] old(self).cipher_buf@[offset + t] == e;
                        assert(self.fix_key@[e as int] == dec[t]);
                        assert(!(old(self).cipher_buf@[offset + t] == old(self).cipher_buf@[offset
                            + i] && dec[t] != dec[i as int]));
                        assert(false);
                    } else {
                        assert(self.fix_key@[e as int] == old(self).fix_key@[e as int]);
                        assert(!old(self).crib.loose@.contains(e as usize));
                        assert(false);
                    }
                }
            }
            let ghost mid = *self;
            let res = self.crib_char(e, d);
            match res {
                Ok(_) => {},
                Err(_) => {
                    proof {
                        assert(false);
                    }
                },
            }
            proof {
                assert forall|x: u8|
                    (x as int) < old(self).key_len() && !is_crib_symbol(
                        old(self).cipher_buf@,
                        offset as int,
                        i + 1,
                        x,
                    ) implies {
                    &&& self.fix_key@[x as int] == old(self).fix_key@[x as int]
                    &&& (self.crib.loose@.contains(x as usize) <==> old(
                        self,
                    ).crib.loose@.contains(x as usize))
                    &&& (self.crib.fixed@.contains(x as usize) <==> old(
                        self,
                    ).crib.fixed@.contains(x as usize))
                } by {
                    assert(old(self).cipher_buf@[offset + i] == e);
                    assert(x != e);
                    assert(!is_crib_symbol(old(self).cipher_buf@, offset as int, i as int, x));
                    assert(self.fix_key@[x as int] == mid.fix_key@[x as int]);
                };
                assert forall|t: int| 0 <= t < i + 1 implies {
                    let enc = #[trigger] old(self).cipher_buf@[offset + t];
                    &&& self.fix_key@[enc as int] == dec[t]
                    &&& self.crib.fixed@.contains(enc as usize)
                    &&& !self.crib.loose@.contains(enc as usize)
                } by {
                    let enc = old(self).cipher_buf@[offset + t];
                    if t < i as int {
                        if enc == e {
                            assert(!(old(self).cipher_buf@[offset + t] == old(self).cipher_buf@[
                            offset + i] && dec[t] != dec[i as int]));
                            assert(dec[t] == dec[i as int]);
                            assert(self.fix_key@[enc as int] == d);
                        } else {
                            assert(self.fix_key@[enc as int] == mid.fix_key@[enc as int]);
                        }
                    } else {
                        assert(enc == e);
                        assert(self.fix_key@[e as int] == d);
                    }
                };
            }
            i = i + 1;
        }
        proof {
            assert forall|t: int| 0 <= t < dec.len() implies {
                let enc = #[trigger] old(self).cipher_buf@[offset + t];
                &&& self.fix_key@[enc as int] == dec[t]
                &&& self.crib.fixed@.contains(enc as usize)
                &&& !self.crib.loose@.contains(enc as usize)
            } by {};
            assert forall|x: u8|
                #![trigger is_crib_symbol(old(self).cipher_buf@, offset as int, decoded@.len() as int, x)]
                (x as int) < old(self).key_len() && !is_crib_symbol(
                    old(self).cipher_buf@,
                    offset as int,
                    decoded@.len() as int,
                    x,
                ) implies {
                &&& self.fix_key@[x as int] == old(self).fix_key@[x as int]
                &&& (self.crib.loose@.contains(x as usize) <==> old(self).crib.loose@.contains(
                    x as usize,
                ))
                &&& (self.crib.fixed@.contains(x as usize) <==> old(self).crib.fixed@.contains(
                    x as usize,
                ))
            } by {};
        }
        Ok(())
    }

    /// Apply one stall perturbation to the run key.
    fn perturb(&mut self, kind: &Perturbation)
        requires
            old(self).wf(),
            kind is Putc ==> old(self).key_len() >= 3,
            kind is LooseSwap ==> old(self).crib.loose@.len() >= 1,
        ensures
            final(self).wf(),
            same_frame(old(self), final(self)),
            final(self).output_buf@ == old(self).output_buf@,
            final(self).top_key@ == old(self).top_key@,
            final(self).fix_key@ == old(self).fix_key@,
            final(self).crib.loose@ == old(self).crib.loose@,
            final(self).crib.fixed@ == old(self).crib.fixed@,
            final(self).run_energy == old(self).run_energy,
            final(self).top_energy == old(self).top_energy,
            final(self).run_key@.len() == old(self).run_key@.len(),
            kind is Keep ==> final(self).run_key@ == old(self).run_key@,
            (kind is Keep || kind is LooseSwap) ==> {
                &&& forall|p: int|
                    0 <= p < old(self).run_key@.len() && !old(self).crib.loose@.contains(
                        p as usize,
                    ) ==> final(self).run_key@[p] == old(self).run_key@[p]
                &&& (covers_all(old(self).run_key@, old(self).out_len()) ==> covers_all(
                    final(self).run_key@,
                    old(self).out_len(),
                ))
            },
    {
        match kind {
            Perturbation::Keep => {},
            Perturbation::Putc => {
                self.run_key.random_putc(&self.output_alphabet);
            },
            Perturbation::LooseSwap => {
                proof {
                    assert forall|t: int|
                        0 <= t < self.crib.loose@.len() implies (
                    #[trigger] self.crib.loose@[t] as int) < self.run_key@.len() by {}
                }
                self.run_key.random_swap(&self.crib);
                proof {
                    let pre = old(self).run_key@;
                    let (x, y) = choose|x: usize, y: usize|
                        old(self).crib.loose@.contains(x) && old(self).crib.loose@.contains(y)
                            && self.run_key@ == pre.update(x as int, pre[y as int]).update(
                            y as int,
                            pre[x as int],
                        );
                    let kx = choose|k: int|
                        0 <= k < old(self).crib.loose@.len() && old(self).crib.loose@[k] == x;
                    let ky = choose|k: int|
                        0 <= k < old(self).crib.loose@.len() && old(self).crib.loose@[k] == y;
                    lemma_swap_preserves_coverage(pre, x as int, y as int, old(self).out_len());
                }
            },
        }
    }
}

/// What holds of a climber throughout a climb, relative to its state `pre`
/// at entry: the frame, the fix key and the crib partition never change; the
/// top energy never falls, and whenever it has risen the top key achieves it;
/// and under swap-only perturbations the fixed positions stay pinned and the
/// coverage of the post-overwrite key `k0` is preserved.
pub open spec fn climb_inv(
    pre: &Climber,
    cur: &Climber,
    config: &Config,
    model: &Frequency,
    k0: Seq<u8>,
) -> bool {
    &&& cur.wf()
    &&& same_frame(pre, cur)
    &&& cur.fix_key@ == pre.fix_key@
    &&& cur.crib.loose@ == pre.crib.loose@
    &&& cur.crib.fixed@ == pre.crib.fixed@
    &&& cur.run_key@.len() == pre.run_key@.len()
    &&& cur.top_energy >= pre.top_energy
    &&& (cur.top_energy > pre.top_energy ==> cur.top_energy == energy_spec(
        model,
        decode_spec(cur.top_key@, cur.cipher_buf@),
    ))
    &&& (cur.top_energy == pre.top_energy ==> cur.top_key@ == pre.top_key@)
    &&& (swaps_only(config) ==> forall|t: int|
        0 <= t < cur.crib.fixed@.len() ==> cur.run_key@[#[trigger] cur.crib.fixed@[t] as int]
            == cur.fix_key@[cur.crib.fixed@[t] as int])
    &&& (swaps_only(config) && cur.top_energy > pre.top_energy ==> forall|t: int|
        0 <= t < cur.crib.fixed@.len() ==> cur.top_key@[#[trigger] cur.crib.fixed@[t] as int]
            == cur.fix_key@[cur.crib.fixed@[t] as int])
    &&& (swaps_only(config) ==> (covers_all(k0, cur.out_len()) ==> covers_all(
        cur.run_key@,
        cur.out_len(),
    )))
}

impl Climber {
    /// Run the search: install a starting key, pin the fixed positions, and
    /// sweep every pair of loose positions `cycle` times, swapping, decoding,
    /// scoring, and accepting by the tolerance rule; the stall counters fire
    /// the configured perturbations, and every strict improvement of the run
    /// energy over the top energy is recorded in the top key.  A fresh
    /// climber that sweeps at least one pair always scores something, so its
    /// top energy rises above the sentinel.
    ///
    /// Stall thresholds of zero are excluded by `requires`: a counter that
    /// fires at zero would, after its first reset and increment, never reach
    /// its threshold again.
    pub fn climb(&mut self, config: &Config, model: &Frequency)
        requires
            old(self).wf(),
            model.wf(),
            config.init_key matches KeyInit::Distribution(frq) ==> frq@.len() == old(
                self,
            ).out_len(),
            config.derive_key is Putc ==> old(self).key_len() >= 3,
            config.mutate_key is Putc ==> old(self).key_len() >= 3,
            config.derive_cycle >= 1,
            config.mutate_cycle >= 1,
        ensures
            final(self).wf(),
            same_frame(old(self), final(self)),
            final(self).fix_key@ == old(self).fix_key@,
            final(self).crib.loose@ == old(self).crib.loose@,
            final(self).crib.fixed@ == old(self).crib.fixed@,
            final(self).top_energy >= old(self).top_energy,
            final(self).top_energy > old(self).top_energy ==> final(self).top_energy
                == energy_spec(model, decode_spec(final(self).top_key@, old(self).cipher_buf@)),
            final(self).top_energy == old(self).top_energy ==> final(self).top_key@ == old(
                self,
            ).top_key@,
            swaps_only(config) ==> forall|t: int|
                0 <= t < final(self).crib.fixed@.len()
                    ==> final(self).run_key@[#[trigger] final(self).crib.fixed@[t] as int]
                    == final(self).fix_key@[final(self).crib.fixed@[t] as int],
            swaps_only(config) && final(self).top_energy > old(self).top_energy ==> forall|t: int|
                0 <= t < final(self).crib.fixed@.len()
                    ==> final(self).top_key@[#[trigger] final(self).crib.fixed@[t] as int]
                    == final(self).fix_key@[final(self).crib.fixed@[t] as int],
            config.init_key is Keep && swaps_only(config) ==> (covers_all(
                overwrite_fixed(old(self).run_key@, old(self).fix_key@, old(self).crib.fixed@),
                old(self).out_len(),
            ) ==> covers_all(final(self).run_key@, old(self).out_len())),
            old(self).run_energy == crate::MIN_ENERGY && old(self).top_energy
                == crate::MIN_ENERGY && config.cycle >= 1 && old(self).crib.loose@.len() >= 2
                ==> final(self).top_energy > crate::MIN_ENERGY,
            no_perturbation(config) ==> final(self).run_energy == old(self).run_energy
                || final(self).run_energy == energy_spec(
                model,
                decode_spec(final(self).run_key@, old(self).cipher_buf@),
            ),
    {
        match &config.init_key {
            KeyInit::Keep => {},
            KeyInit::Paired => {
                self.run_key.randomize(&self.cipher_alphabet, &self.output_alphabet);
            },
            KeyInit::Distribution(frq) => {
                let fresh = Key::random_distribution(self.run_key.len(), frq);
                self.run_key.copy(&fresh);
            },
        }

        let ghost pre_overwrite = self.run_key@;
        let nfixed = self.crib.fixed.len();
        let mut t: usize = 0;
        while t < nfixed
            invariant
                t <= nfixed == self.crib.fixed@.len(),
                self.wf(),
                same_frame(old(self), self),
                self.fix_key@ == old(self).fix_key@,
                self.crib.loose@ == old(self).crib.loose@,
                self.crib.fixed@ == old(self).crib.fixed@,
                self.top_key@ == old(self).top_key@,
                self.top_energy == old(self).top_energy,
                self.run_energy == old(self).run_energy,
                self.output_buf@ == old(self).output_buf@,
                pre_overwrite.len() == self.run_key@.len(),
                self.run_key@ == overwrite_fixed(
                    pre_overwrite,
                    self.fix_key@,
                    self.crib.fixed@.subrange(0, t as int),
                ),
            decreases nfixed - t,
        {
            let idx = self.crib.fixed[t];
            proof {
                assert((self.crib.fixed@[t as int] as int) < self.key_len());
            }
            let v = self.fix_key.get(idx);
            self.run_key.set(idx, v);
            proof {
                let fx = self.crib.fixed@;
                assert(fx.subrange(0, t + 1).drop_last() =~= fx.subrange(0, t as int));
                assert(fx.subrange(0, t + 1).last() == fx[t as int]);
            }
            t = t + 1;
        }
        proof {
            assert(self.crib.fixed@.subrange(0, nfixed as int) =~= self.crib.fixed@);
            lemma_overwrite_fixed_props(pre_overwrite, self.fix_key@, self.crib.fixed@);
        }
        let ghost k0 = self.run_key@;

        self.run_key.decode(&self.cipher_buf, &mut self.output_buf);

        let mut cycle: usize = 0;
        let mut mutate_stall: usize = 0;
        let mut derive_stall: usize = 0;
        let mut accepted: u64 = 1;
        let mut rejected: u64 = 1;
        while cycle < config.cycle
            invariant
                climb_inv(old(self), self, config, model, k0),
                model.wf(),
                config.derive_key is Putc ==> self.key_len() >= 3,
                config.mutate_key is Putc ==> self.key_len() >= 3,
                config.derive_cycle >= 1,
                config.mutate_cycle >= 1,
                mutate_stall <= config.mutate_cycle,
                derive_stall <= config.derive_cycle,
                cycle <= config.cycle,
                old(self).run_energy == crate::MIN_ENERGY && old(self).top_energy
                    == crate::MIN_ENERGY ==> self.run_energy == crate::MIN_ENERGY
                    || self.top_energy > crate::MIN_ENERGY,
                no_perturbation(config) ==> self.run_energy == old(self).run_energy
                    || self.run_energy == energy_spec(
                    model,
                    decode_spec(self.run_key@, self.cipher_buf@),
                ),
                old(self).run_energy == crate::MIN_ENERGY && old(self).top_energy
                    == crate::MIN_ENERGY && old(self).crib.loose@.len() >= 2 && cycle >= 1
                    ==> self.top_energy > crate::MIN_ENERGY,
                config.init_key is Keep ==> k0 == overwrite_fixed(
                    old(self).run_key@,
                    old(self).fix_key@,
                    old(self).crib.fixed@,
                ),
            decreases config.cycle - cycle,
        {
            if config.report {
                report_progress(cycle, self.top_energy, self.run_energy, accepted, rejected);
            }
            let nloose = self.crib.loose.len();
            let mut ii: usize = 0;
            while ii < nloose
                invariant
                    climb_inv(old(self), self, config, model, k0),
                    model.wf(),
                    config.derive_key is Putc ==> self.key_len() >= 3,
                    config.mutate_key is Putc ==> self.key_len() >= 3,
                    config.derive_cycle >= 1,
                    config.mutate_cycle >= 1,
                    mutate_stall <= config.mutate_cycle,
                    derive_stall <= config.derive_cycle,
                    ii <= nloose == self.crib.loose@.len(),
                    old(self).run_energy == crate::MIN_ENERGY && old(self).top_energy
                        == crate::MIN_ENERGY ==> self.run_energy == crate::MIN_ENERGY
                        || self.top_energy > crate::MIN_ENERGY,
                    no_perturbation(config) ==> self.run_energy == old(self).run_energy
                        || self.run_energy == energy_spec(
                        model,
                        decode_spec(self.run_key@, self.cipher_buf@),
                    ),
                    old(self).run_energy == crate::MIN_ENERGY && old(self).top_energy
                        == crate::MIN_ENERGY && old(self).crib.loose@.len() >= 2 && (cycle >= 1
                        || ii >= 1) ==> self.top_energy > crate::MIN_ENERGY,
                decreases nloose - ii,
            {
                let mut jj = ii + 1;
                while jj < nloose
                    invariant
                        climb_inv(old(self), self, config, model, k0),
                        model.wf(),
                        config.derive_key is Putc ==> self.key_len() >= 3,
                        config.mutate_key is Putc ==> self.key_len() >= 3,
                        config.derive_cycle >= 1,
                        config.mutate_cycle >= 1,
                        mutate_stall <= config.mutate_cycle,
                        derive_stall <= config.derive_cycle,
                        ii < jj <= nloose == self.crib.loose@.len(),
                        old(self).run_energy == crate::MIN_ENERGY && old(self).top_energy
                            == crate::MIN_ENERGY ==> self.run_energy == crate::MIN_ENERGY
                            || self.top_energy > crate::MIN_ENERGY,
                        no_perturbation(config) ==> self.run_energy == old(self).run_energy
                            || self.run_energy == energy_spec(
                            model,
                            decode_spec(self.run_key@, self.cipher_buf@),
                        ),
                        old(self).run_energy == crate::MIN_ENERGY && old(self).top_energy
                            == crate::MIN_ENERGY && old(self).crib.loose@.len() >= 2 && (cycle
                            >= 1 || ii >= 1 || jj >= 2) ==> self.top_energy > crate::MIN_ENERGY,
                    decreases nloose - jj,
                {
                    let i = self.crib.loose[ii];
                    let j = self.crib.loose[jj];

                    if derive_stall == config.derive_cycle {
                        self.perturb(&config.derive_key);
                        derive_stall = 0;
                    }
                    if mutate_stall == config.mutate_cycle {
                        self.perturb(&config.mutate_key);
                        mutate_stall = 0;
                    }

                    proof {
                        assert(self.crib.loose@.contains(self.crib.loose@[ii as int]));
                        assert(self.crib.loose@.contains(self.crib.loose@[jj as int]));
                        assert((i as int) < self.run_key@.len());
                        assert((j as int) < self.run_key@.len());
                        if swaps_only(config) {
                            assert forall|s: int|
                                0 <= s < self.crib.fixed@.len() implies self.crib.fixed@[s] != i
                                && self.crib.fixed@[s] != j by {
                                assert(self.crib.loose@[ii as int] != self.crib.fixed@[s]);
                                assert(self.crib.loose@[jj as int] != self.crib.fixed@[s]);
                            };
                        }
                    }
                    let ghost before = *self;
                    self.run_key.swap(i, j);
                    proof {
                        if swaps_only(config) {
                            lemma_swap_preserves_coverage(
                                before.run_key@,
                                i as int,
                                j as int,
                                self.out_len(),
                            );
                        }
                    }
                    self.run_key.decode(&self.cipher_buf, &mut self.output_buf);
                    proof {
                        assert(self.output_buf@ =~= decode_spec(self.run_key@, self.cipher_buf@));
                    }
                    let next = energy(model, &self.output_buf);
                    if !crate::lavy_accept(self.run_energy, next) {
                        self.run_key.swap(i, j);
                        proof {
                            assert(self.run_key@ =~= before.run_key@);
                        }
                        mutate_stall = mutate_stall + 1;
                        derive_stall = derive_stall + 1;
                        if rejected < u64::MAX {
                            rejected = rejected + 1;
                        }
                    } else {
                        if accepted < u64::MAX {
                            accepted = accepted + 1;
                        }
                        self.run_energy = next;
                        if self.run_energy > self.top_energy {
                            proof {
                                assert(self.top_key@.len() == self.run_key@.len());
                            }
                            self.top_key.copy(&self.run_key);
                            self.top_energy = self.run_energy;
                            mutate_stall = 0;
                            derive_stall = 0;
                            proof {
                                assert(self.output_buf@ =~= decode_spec(
                                    self.run_key@,
                                    self.cipher_buf@,
                                ));
                            }
                        }
                    }
                    jj = jj + 1;
                }
                ii = ii + 1;
            }
            cycle = cycle + 1;
        }
    }
}

/// The energy of a decoded buffer under `model`: the buffer's score scaled
/// by `ENERGY_VALUE` and divided by the buffer length.
pub fn energy(model: &Frequency, output: &Vec<Char>) -> (r: i64)
    requires
        model.wf(),
        1 <= output@.len() <= crate::LEN_CAP,
    ensures
        r == energy_spec(model, output@),
        0 <= r <= (crate::ENERGY_VALUE as int) * (crate::SCORE_CAP as int),
{
    let score = model.score(output);
    let len = output.len();
    proof {
        let s = score as int;
        let l = len as int;
        let e = crate::ENERGY_VALUE as int;
        let c = crate::SCORE_CAP as int;
        assert(s * e >= 0) by (nonlinear_arith)
            requires
                s >= 0,
                e > 0,
        ;
        assert(s * e <= l * (e * c)) by (nonlinear_arith)
            requires
                0 <= s <= l * c,
                e > 0,
        ;
        assert(l * (e * c) <= 1000000 * (5000 * 1000000000000int)) by (nonlinear_arith)
            requires
                0 <= l <= 1000000,
                e * c == 5000 * 1000000000000int,
        ;
        vstd::arithmetic::div_mod::lemma_div_pos_is_pos(s * e, l);
        vstd::arithmetic::div_mod::lemma_div_is_ordered(s * e, l * (e * c), l);
        vstd::arithmetic::div_mod::lemma_div_multiples_vanish(e * c, l);
    }
    let wide: i128 = (score as i128) * (crate::ENERGY_VALUE as i128) / (len as i128);
    wide as i64
}

/// Relies on std's `writeln` to stdout: prints one progress line and
/// promises nothing.
#[verifier::external_body]
fn report_progress(cycle: usize, top: i64, run: i64, accepted: u64, rejected: u64) {
    let _ = writeln!(
        std::io::stdout(),
        "cycle {} | top {} | run {} | accepted {} | rejected {}",
        cycle,
        top,
        run,
        accepted,
        rejected,
    );
}

} // verus!
