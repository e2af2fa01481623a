//! Substitution keys and the crib-driven partition of their positions.

use vstd::prelude::*;
use crate::encoding::{Alphabet, Char};
use crate::rng::random_below;
use crate::util::{distinct_seq, lemma_remove_distinct, probability, take_random_element_from_set};

verus! {

/// The partition of the key positions `[0, len)` into `fixed` — pinned by a
/// crib and never mutated by the search — and `loose` — free to mutate.
#[derive(Clone, Debug)]
pub struct Crib {
    pub fixed: Vec<usize>,
    pub loose: Vec<usize>,
}

impl Crib {
    /// The partition invariant: `fixed` and `loose` are duplicate-free,
    /// disjoint, and together enumerate exactly `[0, len)`.
    pub open spec fn wf(&self, len: nat) -> bool {
        &&& distinct_seq(self.loose@)
        &&& distinct_seq(self.fixed@)
        &&& forall|i: int| 0 <= i < self.loose@.len() ==> (#[trigger] self.loose@[i] as int) < len
        &&& forall|i: int| 0 <= i < self.fixed@.len() ==> (#[trigger] self.fixed@[i] as int) < len
        &&& forall|i: int, j: int|
            0 <= i < self.loose@.len() && 0 <= j < self.fixed@.len() ==> self.loose@[i]
                != self.fixed@[j]
        &&& forall|p: usize| (p as int) < len ==> self.loose@.contains(p) || self.fixed@.contains(p)
    }

    /// A fresh partition over `[0, len)` with every position loose.
    pub fn new(len: usize) -> (r: Self)
        ensures
            r.wf(len as nat),
            r.fixed@.len() == 0,
            r.loose@.len() == len,
            forall|i: int| 0 <= i < len ==> r.loose@[i] == i as usize,
    {
        let mut loose: Vec<usize> = Vec::new();
        let fixed: Vec<usize> = Vec::new();
        let mut index: usize = 0;
        while index < len
            invariant
                index <= len,
                loose@.len() == index,
                forall|k: int| 0 <= k < index ==> loose@[k] == k as usize,
            decreases len - index,
        {
            loose.push(index);
            index = index + 1;
        }
        let r = Self { loose, fixed };
        proof {
            assert forall|p: usize| (p as int) < len implies r.loose@.contains(p)
                || r.fixed@.contains(p) by {
                assert(r.loose@[p as int] == p);
            };
        }
        r
    }

    /// The position of `item` within `loose`, if it is loose: the first such
    /// position.
    pub fn find_loose_index(&self, item: usize) -> (r: Option<usize>)
        ensures
            match r {
                Some(k) => (k as int) < self.loose@.len() && self.loose@[k as int] == item
                    && forall|t: int| 0 <= t < k ==> self.loose@[t] != item,
                None => !self.loose@.contains(item),
            },
    {
        let len = self.loose.len();
        let mut index: usize = 0;
        while index < len
            invariant
                index <= len == self.loose@.len(),
                forall|t: int| 0 <= t < index ==> self.loose@[t] != item,
            decreases len - index,
        {
            if self.loose[index] == item {
                return Some(index);
            }
            index = index + 1;
        }
        proof {
            if self.loose@.contains(item) {
                let t = choose|t: int| 0 <= t < self.loose@.len() && self.loose@[t] == item;
                assert(self.loose@[t] != item);
            }
        }
        None
    }

    /// Move `item` from loose to fixed; nothing changes when it is not
    /// loose, so fixing is idempotent.  The partition invariant is kept.
    pub fn fix(&mut self, item: usize)
        ensures
            old(self).loose@.contains(item) ==> exists|k: int|
                0 <= k < old(self).loose@.len()
                && old(self).loose@[k] == item
                && final(self).loose@ == old(self).loose@.remove(k)
                && final(self).fixed@ == old(self).fixed@.push(item),
            !old(self).loose@.contains(item) ==> *final(self) == *old(self),
            forall|len: nat| old(self).wf(len) ==> final(self).wf(len),
    {
        match self.find_loose_index(item) {
            Some(index) => {
                self.loose.remove(index);
                self.fixed.push(item);
                proof {
                    let pre = *old(self);
                    let k = index as int;
                    assert(pre.loose@[k] == item);
                    assert(pre.loose@.contains(item));
                    assert forall|len: nat| pre.wf(len) implies self.wf(len) by {
                        lemma_remove_distinct(pre.loose@, k);
                        let lo = self.loose@;
                        let fi = self.fixed@;
                        assert(forall|i: int| 0 <= i < k ==> lo[i] == pre.loose@[i]);
                        assert(forall|i: int| k <= i < lo.len() ==> lo[i] == pre.loose@[i + 1]);
                        assert(forall|j: int|
                            0 <= j < pre.fixed@.len() ==> fi[j] == pre.fixed@[j]);
                        assert(fi.last() == item);
                        assert(distinct_seq(fi)) by {
                            assert(forall|j: int|
                                0 <= j < pre.fixed@.len() ==> pre.loose@[k] != pre.fixed@[j]);
                        };
                        assert forall|i: int, j: int|
                            0 <= i < lo.len() && 0 <= j < fi.len() implies lo[i] != fi[j] by {
                            assert(lo.contains(lo[i]));
                            assert(lo[i] != item);
                            if j < fi.len() - 1 {
                                assert(pre.loose@.contains(lo[i]));
                            }
                        };
                        assert forall|p: usize| (p as int) < len implies lo.contains(p)
                            || fi.contains(p) by {
                            if pre.loose@.contains(p) {
                                if p == item {
                                    assert(fi[fi.len() - 1] == p);
                                } else {
                                    assert(lo.contains(p));
                                }
                            } else {
                                let j = choose|j: int|
                                    0 <= j < pre.fixed@.len() && pre.fixed@[j] == p;
                                assert(fi[j] == p);
                            }
                        };
                    };
                }
            },
            None => {},
        }
    }

    /// A uniformly chosen loose position.
    pub fn sample(&self) -> (r: usize)
        requires
            self.loose@.len() >= 1,
        ensures
            self.loose@.contains(r),
    {
        let r = self.loose[random_below(self.loose.len())];
        proof {
            assert(self.loose@.contains(r)) by {
                let k = choose|k: int| 0 <= k < self.loose@.len() && self.loose@[k] == r;
            };
        }
        r
    }
}

/// Law: crib partition — in a well-formed crib every position below `len` is
/// either loose or fixed, and never both.
pub proof fn lemma_crib_partition(crib: &Crib, len: nat, p: usize)
    requires
        crib.wf(len),
        (p as int) < len,
    ensures
        crib.loose@.contains(p) || crib.fixed@.contains(p),
        !(crib.loose@.contains(p) && crib.fixed@.contains(p)),
{
    if crib.loose@.contains(p) && crib.fixed@.contains(p) {
        let i = choose|i: int| 0 <= i < crib.loose@.len() && crib.loose@[i] == p;
        let j = choose|j: int| 0 <= j < crib.fixed@.len() && crib.fixed@[j] == p;
        assert(crib.loose@[i] != crib.fixed@[j]);
    }
}

/// A substitution key: a total map from cipher symbols to plaintext symbols,
/// held as a dense array indexed by cipher symbol.
#[derive(Clone, Debug)]
pub struct Key(Vec<Char>);

impl View for Key {
    type V = Seq<Char>;

    closed spec fn view(&self) -> Seq<Char> {
        self.0@
    }
}

impl Key {
    /// A key of `len` positions, all mapping to symbol zero.
    pub fn new(len: usize) -> (r: Self)
        ensures
            r@.len() == len,
            forall|i: int| 0 <= i < len ==> r@[i] == 0u8,
    {
        let mut inner: Vec<Char> = Vec::new();
        let mut i: usize = 0;
        while i < len
            invariant
                i <= len,
                inner@.len() == i,
                forall|k: int| 0 <= k < i ==> inner@[k] == 0u8,
            decreases len - i,
        {
            inner.push(0);
            i = i + 1;
        }
        Self(inner)
    }

    /// How many cipher symbols the key maps.
    pub fn len(&self) -> (r: usize)
        ensures
            r == self@.len(),
    {
        self.0.len()
    }

    /// The plaintext symbol of cipher symbol `i`.
    pub fn get(&self, i: usize) -> (r: Char)
        requires
            i < self@.len(),
        ensures
            r == self@[i as int],
    {
        self.0[i]
    }

    /// Map cipher symbol `i` to plaintext symbol `value`.
    pub fn set(&mut self, i: usize, value: Char)
        requires
            i < old(self)@.len(),
        ensures
            final(self)@ == old(self)@.update(i as int, value),
    {
        self.0.set(i, value);
    }

    /// Exchange the plaintext symbols at positions `i` and `j`: the sole
    /// neighborhood move of the search.
    pub fn swap(&mut self, i: usize, j: usize)
        requires
            i < old(self)@.len(),
            j < old(self)@.len(),
        ensures
            final(self)@ == old(self)@.update(i as int, old(self)@[j as int]).update(
                j as int,
                old(self)@[i as int],
            ),
    {
        let a = self.0[i];
        let b = self.0[j];
        self.0.set(i, b);
        self.0.set(j, a);
    }

    /// Decode `cipher` into the pre-sized buffer `output`: position `k`
    /// receives the key's image of cipher symbol `cipher[k]`.
    pub fn decode(&self, cipher: &Vec<Char>, output: &mut Vec<Char>)
        requires
            forall|k: int|
                0 <= k < cipher@.len() ==> (#[trigger] cipher@[k] as int) < self@.len(),
            old(output)@.len() == cipher@.len(),
        ensures
            final(output)@.len() == cipher@.len(),
            forall|k: int| 0 <= k < cipher@.len() ==> final(output)@[k] == self@[cipher@[k] as int],
    {
        let n = cipher.len();
        let mut k: usize = 0;
        while k < n
            invariant
                k <= n == cipher@.len(),
                output@.len() == n,
                forall|t: int|
                    0 <= t < cipher@.len() ==> (#[trigger] cipher@[t] as int) < self@.len(),
                forall|t: int| 0 <= t < k ==> output@[t] == self@[cipher@[t] as int],
            decreases n - k,
        {
            let c = cipher[k];
            output.set(k, self.0[c as usize]);
            k = k + 1;
        }
    }

    /// Overwrite this key with `key`.
    pub fn copy(&mut self, key: &Key)
        requires
            old(self)@.len() == key@.len(),
        ensures
            final(self)@ == key@,
    {
        let n = self.0.len();
        let mut k: usize = 0;
        while k < n
            invariant
                k <= n == self@.len() == key@.len(),
                forall|t: int| 0 <= t < k ==> self@[t] == key@[t],
            decreases n - k,
        {
            self.0.set(k, key.get(k));
            k = k + 1;
        }
        proof {
            assert(self@ =~= key@);
        }
    }

    /// Overwrite each position with `key`'s value at even odds: every
    /// position ends up holding its old value or `key`'s.
    pub fn splice(&mut self, key: &Key)
        requires
            key@.len() <= old(self)@.len(),
        ensures
            final(self)@.len() == old(self)@.len(),
            forall|i: int|
                0 <= i < key@.len() ==> final(self)@[i] == old(self)@[i] || final(self)@[i]
                    == key@[i],
            forall|i: int| key@.len() <= i < old(self)@.len() ==> final(self)@[i] == old(self)@[i],
    {
        let n = key.len();
        let mut index: usize = 0;
        while index < n
            invariant
                index <= n == key@.len() <= self@.len(),
                self@.len() == old(self)@.len(),
                forall|i: int|
                    0 <= i < index ==> self@[i] == old(self)@[i] || self@[i] == key@[i],
                forall|i: int| index <= i < self@.len() ==> self@[i] == old(self)@[i],
            decreases n - index,
        {
            if probability(crate::SCALE / 2) {
                self.0.set(index, key.get(index));
            }
            index = index + 1;
        }
    }

    /// Set the last three positions to uniformly chosen plaintext symbols:
    /// the stall-breaking perturbation.
    pub fn random_putc(&mut self, alphabet: &Alphabet)
        requires
            old(self)@.len() >= 3,
            1 <= alphabet.spec_len() <= 255,
        ensures
            final(self)@.len() == old(self)@.len(),
            forall|i: int| 0 <= i < old(self)@.len() - 3 ==> final(self)@[i] == old(self)@[i],
            forall|i: int|
                old(self)@.len() - 3 <= i < old(self)@.len() ==> (final(self)@[i] as int)
                    < alphabet.spec_len(),
    {
        let len = self.0.len();
        self.0.set(len - 3, alphabet.random_char());
        self.0.set(len - 2, alphabet.random_char());
        self.0.set(len - 1, alphabet.random_char());
    }

    /// Exchange two uniformly chosen loose positions.
    pub fn random_swap(&mut self, crib: &Crib)
        requires
            crib.loose@.len() >= 1,
            forall|i: int|
                0 <= i < crib.loose@.len() ==> (#[trigger] crib.loose@[i] as int) < old(
                    self,
                )@.len(),
        ensures
            final(self)@.len() == old(self)@.len(),
            exists|x: usize, y: usize|
                crib.loose@.contains(x) && crib.loose@.contains(y) && final(self)@ == old(
                    self,
                )@.update(x as int, old(self)@[y as int]).update(y as int, old(self)@[x as int]),
    {
        let a = crib.sample();
        let b = crib.sample();
        proof {
            let ka = choose|k: int| 0 <= k < crib.loose@.len() && crib.loose@[k] == a;
            let kb = choose|k: int| 0 <= k < crib.loose@.len() && crib.loose@[k] == b;
        }
        self.swap(a, b);
    }

    /// A key seeded by pairing cipher symbols with plaintext symbols drawn
    /// without replacement, then filling any leftover cipher symbols with
    /// uniform draws.  Every value lies in the plaintext alphabet; when the
    /// cipher alphabet is no larger than the plaintext alphabet, the values
    /// are pairwise distinct.
    pub fn random(cipher_alphabet: &Alphabet, output_alphabet: &Alphabet) -> (r: Self)
        requires
            cipher_alphabet.spec_len() <= 256,
            1 <= output_alphabet.spec_len() <= 255,
        ensures
            r@.len() == cipher_alphabet.spec_len(),
            forall|i: int| 0 <= i < r@.len() ==> (#[trigger] r@[i] as int)
                < output_alphabet.spec_len(),
            cipher_alphabet.spec_len() <= output_alphabet.spec_len() ==> distinct_seq(r@),
    {
        let mut init = Self::new(cipher_alphabet.len());
        init.randomize(cipher_alphabet, output_alphabet);
        init
    }

    /// Reseed this key as `random` does.
    pub fn randomize(&mut self, cipher_alphabet: &Alphabet, output_alphabet: &Alphabet)
        requires
            old(self)@.len() == cipher_alphabet.spec_len(),
            cipher_alphabet.spec_len() <= 256,
            1 <= output_alphabet.spec_len() <= 255,
        ensures
            final(self)@.len() == old(self)@.len(),
            forall|i: int| 0 <= i < final(self)@.len() ==> (#[trigger] final(self)@[i] as int)
                < output_alphabet.spec_len(),
            cipher_alphabet.spec_len() <= output_alphabet.spec_len() ==> distinct_seq(
                final(self)@,
            ),
    {
        let ghost clen = cipher_alphabet.spec_len() as int;
        let ghost plen = output_alphabet.spec_len() as int;
        let mut cipher: Vec<Char> = cipher_alphabet.char_vec();
        let mut output: Vec<Char> = output_alphabet.char_vec();
        proof {
            assert forall|p: int| 0 <= p < clen implies cipher@.contains(#[trigger] (p as u8)) by {
                assert(cipher@[p] == p as u8);
            };
        }
        while cipher.len() > 0 && output.len() > 0
            invariant
                self@.len() == clen,
                clen == cipher_alphabet.spec_len() as int,
                plen == output_alphabet.spec_len() as int,
                clen <= 256,
                1 <= plen <= 255,
                distinct_seq(cipher@),
                distinct_seq(output@),
                forall|i: int| 0 <= i < cipher@.len() ==> (#[trigger] cipher@[i] as int) < clen,
                forall|i: int| 0 <= i < output@.len() ==> (#[trigger] output@[i] as int) < plen,
                clen <= plen ==> cipher@.len() <= output@.len(),
                forall|p: int|
                    0 <= p < clen && !cipher@.contains(p as u8) ==> (#[trigger] self@[p] as int)
                        < plen,
                forall|p: int|
                    0 <= p < clen && !cipher@.contains(p as u8) ==> !output@.contains(
                        #[trigger] self@[p],
                    ),
                forall|p: int, q: int|
                    0 <= p < q < clen && !cipher@.contains(p as u8) && !cipher@.contains(q as u8)
                        ==> self@[p] != self@[q],
            decreases cipher@.len(),
        {
            let ghost cipher_pre = cipher@;
            let ghost output_pre = output@;
            let ghost self_pre = self@;
            let cipher_char = take_random_element_from_set(&mut cipher);
            let output_char = take_random_element_from_set(&mut output);
            proof {
                let kc = choose|k: int|
                    0 <= k < cipher_pre.len() && cipher_pre[k] == cipher_char && cipher@
                        == cipher_pre.remove(k);
                let ko = choose|k: int|
                    0 <= k < output_pre.len() && output_pre[k] == output_char && output@
                        == output_pre.remove(k);
                lemma_remove_distinct(cipher_pre, kc);
                lemma_remove_distinct(output_pre, ko);
                assert(cipher_pre.contains(cipher_char));
                assert(output_pre.contains(output_char));
                assert((cipher_char as int) < clen);
                assert((output_char as int) < plen);
            }
            self.0.set(cipher_char as usize, output_char);
            proof {
                let c = cipher_char as int;
                assert(self@ == self_pre.update(c, output_char));
                assert forall|p: int|
                    0 <= p < clen && !cipher@.contains(p as u8) implies ((
                #[trigger] self@[p] as int) < plen && !output@.contains(self@[p])) by {
                    if p == c {
                        assert(self@[p] == output_char);
                        assert(!output@.contains(output_char));
                    } else {
                        assert(p as u8 != cipher_char);
                        assert(!cipher_pre.contains(p as u8));
                        assert(self@[p] == self_pre[p]);
                        assert(!output_pre.contains(self_pre[p]));
                    }
                };
                assert forall|p: int, q: int|
                    0 <= p < q < clen && !cipher@.contains(p as u8) && !cipher@.contains(q as u8)
                        implies self@[p] != self@[q] by {
                    if p != c && q != c {
                        assert(!cipher_pre.contains(p as u8));
                        assert(!cipher_pre.contains(q as u8));
                        assert(self@[p] == self_pre[p] && self@[q] == self_pre[q]);
                    } else if p == c {
                        assert(!cipher_pre.contains(q as u8));
                        assert(self@[q] == self_pre[q]);
                        assert(!output_pre.contains(self_pre[q]));
                        assert(self@[p] == output_char);
                    } else {
                        assert(!cipher_pre.contains(p as u8));
                        assert(self@[p] == self_pre[p]);
                        assert(!output_pre.contains(self_pre[p]));
                        assert(self@[q] == output_char);
                    }
                };
            }
        }
        while cipher.len() > 0
            invariant
                self@.len() == clen,
                clen == cipher_alphabet.spec_len() as int,
                plen == output_alphabet.spec_len() as int,
                clen <= 256,
                1 <= plen <= 255,
                distinct_seq(cipher@),
                forall|i: int| 0 <= i < cipher@.len() ==> (#[trigger] cipher@[i] as int) < clen,
                clen <= plen ==> cipher@.len() == 0,
                forall|p: int|
                    0 <= p < clen && !cipher@.contains(p as u8) ==> (#[trigger] self@[p] as int)
                        < plen,
                clen <= plen ==> forall|p: int, q: int|
                    0 <= p < q < clen && !cipher@.contains(p as u8) && !cipher@.contains(q as u8)
                        ==> self@[p] != self@[q],
            decreases cipher@.len(),
        {
            let ghost cipher_pre = cipher@;
            let ghost self_pre = self@;
            let cipher_char = take_random_element_from_set(&mut cipher);
            let output_char = output_alphabet.random_char();
            proof {
                let kc = choose|k: int|
                    0 <= k < cipher_pre.len() && cipher_pre[k] == cipher_char && cipher@
                        == cipher_pre.remove(k);
                lemma_remove_distinct(cipher_pre, kc);
                assert(cipher_pre.contains(cipher_char));
                assert((cipher_char as int) < clen);
            }
            self.0.set(cipher_char as usize, output_char);
            proof {
                let c = cipher_char as int;
                assert(self@ == self_pre.update(c, output_char));
                assert forall|p: int|
                    0 <= p < clen && !cipher@.contains(p as u8) implies (
                #[trigger] self@[p] as int) < plen by {
                    if p != c {
                        assert(p as u8 != cipher_char);
                        assert(!cipher_pre.contains(p as u8));
                        assert(self@[p] == self_pre[p]);
                    }
                };
            }
        }
        proof {
            assert forall|p: int|
                0 <= p < clen implies !cipher@.contains(#[trigger] (p as u8)) by {}
        }
    }

    /// A key seeded by a probabilistic sweep: plaintext symbols are cycled
    /// through, and symbol `p` is written into the next unfilled position
    /// with probability `frq[p]` microunits, until every position is filled
    /// or the sweep budget runs out; any position still unfilled then takes
    /// a uniform draw.  Every value indexes into `frq`.
    pub fn random_distribution(len: usize, frq: &Vec<u64>) -> (r: Self)
        requires
            len >= 1,
            1 <= frq@.len() <= 256,
        ensures
            r@.len() == len,
            forall|i: int| 0 <= i < len ==> (#[trigger] r@[i] as int) < frq@.len(),
    {
        let mut assigned: Vec<bool> = Vec::new();
        let mut i: usize = 0;
        while i < len
            invariant
                i <= len,
                assigned@.len() == i,
            decreases len - i,
        {
            assigned.push(false);
            i = i + 1;
        }
        let mut key = Self::new(len);

        let mut key_index: usize = 0;
        let mut frq_index: usize = 0;
        let mut budget: usize = 1000000;
        while budget > 0
            invariant
                key@.len() == len >= 1,
                assigned@.len() == len,
                1 <= frq@.len() <= 256,
                key_index <= len,
                frq_index <= frq@.len(),
                forall|k: int| 0 <= k < len ==> (#[trigger] key@[k] as int) < frq@.len(),
            decreases budget,
        {
            budget = budget - 1;
            if key_index >= len {
                key_index = 0;
            }
            if frq_index >= frq.len() {
                frq_index = 0;
            }

            let mut done = true;
            let mut index: usize = 0;
            while index < len
                invariant
                    index <= len == assigned@.len(),
                decreases len - index,
            {
                if !assigned[index] {
                    done = false;
                }
                index = index + 1;
            }
            if done {
                break ;
            }

            if assigned[key_index] {
                key_index = key_index + 1;
                continue ;
            }

            if probability(frq[frq_index]) {
                key.set(key_index, frq_index as Char);
                assigned.set(key_index, true);
            }
            frq_index = frq_index + 1;
            key_index = key_index + 1;
        }

        let mut index: usize = 0;
        while index < len
            invariant
                index <= len == assigned@.len(),
                key@.len() == len,
                1 <= frq@.len() <= 256,
                forall|k: int| 0 <= k < len ==> (#[trigger] key@[k] as int) < frq@.len(),
            decreases len - index,
        {
            if !assigned[index] {
                key.set(index, random_below(frq.len()) as Char);
            }
            index = index + 1;
        }
        key
    }
}

} // verus!
