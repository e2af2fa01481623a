//! Small shared utilities: randomness in microunits and peripheral
//! statistics over symbol buffers.

use vstd::prelude::*;
use crate::rng::random_below;

verus! {

/// A uniform draw from `[0, SCALE)` microunits: the fixed-point stand-in for
/// a uniform draw from the unit interval.
pub fn uniform_random() -> (r: u64)
    ensures
        r < crate::SCALE,
{
    random_below(crate::SCALE as usize) as u64
}

/// A biased coin: true with probability `p` microunits.  A probability of
/// zero never fires; one of a whole unit or more always does.
pub fn probability(p: u64) -> (r: bool)
    ensures
        p == 0 ==> !r,
        p >= crate::SCALE ==> r,
{
    p > uniform_random()
}

/// No element occurs twice.
pub open spec fn distinct_seq<T>(s: Seq<T>) -> bool {
    forall|i: int, j: int| 0 <= i < j < s.len() ==> s[i] != s[j]
}

/// Removing position `k` from a duplicate-free sequence keeps it
/// duplicate-free and removes exactly the element that stood there.
pub proof fn lemma_remove_distinct<T>(s: Seq<T>, k: int)
    requires
        0 <= k < s.len(),
        distinct_seq(s),
    ensures
        distinct_seq(s.remove(k)),
        forall|x: T| s.remove(k).contains(x) <==> (s.contains(x) && x != s[k]),
{
    let r = s.remove(k);
    assert(forall|i: int| 0 <= i < k ==> r[i] == s[i]);
    assert(forall|i: int| k <= i < r.len() ==> r[i] == s[i + 1]);
    assert forall|x: T| r.contains(x) <==> (s.contains(x) && x != s[k]) by {
        if r.contains(x) {
            let i = choose|i: int| 0 <= i < r.len() && r[i] == x;
            if i < k {
                assert(s[i] == x);
            } else {
                assert(s[i + 1] == x);
            }
        }
        if s.contains(x) && x != s[k] {
            let i = choose|i: int| 0 <= i < s.len() && s[i] == x;
            if i < k {
                assert(r[i] == x);
            } else {
                assert(r[i - 1] == x);
            }
        }
    };
}

/// Remove and return one uniformly chosen element of a non-empty pool.
pub fn take_random_element_from_set<T: Copy>(set: &mut Vec<T>) -> (r: T)
    requires
        old(set)@.len() >= 1,
    ensures
        exists|k: int|
            0 <= k < old(set)@.len() && old(set)@[k] == r && final(set)@ == old(set)@.remove(k),
{
    let k = random_below(set.len());
    let r = set[k];
    set.remove(k);
    r
}

/// How often symbol `v` occurs in `s`.
pub open spec fn count_in(s: Seq<u8>, v: u8) -> int
    decreases s.len(),
{
    if s.len() == 0 {
        0
    } else {
        count_in(s.drop_last(), v) + (if s.last() == v {
            1int
        } else {
            0int
        })
    }
}

/// The sum of the counts of the symbols below `upto`.
pub open spec fn sum_counts(s: Seq<u8>, upto: int) -> int
    decreases upto,
{
    if upto <= 0 {
        0
    } else {
        sum_counts(s, upto - 1) + count_in(s, (upto - 1) as u8)
    }
}

/// The coincidence numerator: the sum over the symbols below `upto` of
/// `c * (c - 1)`, where `c` is the symbol's count.
pub open spec fn pair_sum(s: Seq<u8>, upto: int) -> int
    decreases upto,
{
    if upto <= 0 {
        0
    } else {
        pair_sum(s, upto - 1) + count_in(s, (upto - 1) as u8) * (count_in(s, (upto - 1) as u8) - 1)
    }
}

/// The index of coincidence of `s` over an alphabet of `alpha_len` symbols,
/// in microunits: `alpha_len * pair_sum * SCALE / (n * (n - 1))`.
pub open spec fn ioc_spec(s: Seq<u8>, alpha_len: int) -> int {
    alpha_len * pair_sum(s, alpha_len) * (crate::SCALE as int) / (s.len() * (s.len() - 1))
}

proof fn lemma_count_le_len(s: Seq<u8>, v: u8)
    ensures
        0 <= count_in(s, v) <= s.len(),
    decreases s.len(),
{
    if s.len() > 0 {
        lemma_count_le_len(s.drop_last(), v)
    }
}

proof fn lemma_count_step(s: Seq<u8>, k: int)
    requires
        0 <= k < s.len(),
    ensures
        forall|v: u8| #[trigger]
            count_in(s.subrange(0, k + 1), v) == count_in(s.subrange(0, k), v) + (if s[k] == v {
                1int
            } else {
                0int
            }),
{
    assert forall|v: u8| #[trigger]
        count_in(s.subrange(0, k + 1), v) == count_in(s.subrange(0, k), v) + (if s[k] == v {
            1int
        } else {
            0int
        }) by {
        assert(s.subrange(0, k + 1).drop_last() =~= s.subrange(0, k));
        assert(s.subrange(0, k + 1).last() == s[k]);
    };
}

proof fn lemma_sum_counts_le_len(s: Seq<u8>, upto: int)
    requires
        upto <= 256,
    ensures
        0 <= sum_counts(s, upto) <= s.len(),
    decreases s.len(),
{
    lemma_sum_counts_drop(s, upto);
    if s.len() > 0 {
        lemma_sum_counts_le_len(s.drop_last(), upto);
    }
}

proof fn lemma_sum_counts_drop(s: Seq<u8>, upto: int)
    requires
        upto <= 256,
    ensures
        s.len() > 0 ==> sum_counts(s, upto) == sum_counts(s.drop_last(), upto) + (if (
        s.last() as int) < upto && 0 <= upto {
            1int
        } else {
            0int
        }),
        s.len() == 0 ==> sum_counts(s, upto) == 0,
    decreases upto,
{
    if upto <= 0 {
    } else {
        lemma_sum_counts_drop(s, upto - 1);
        if s.len() > 0 {
            assert(count_in(s, (upto - 1) as u8) == count_in(s.drop_last(), (upto - 1) as u8) + (
            if s.last() == (upto - 1) as u8 {
                1int
            } else {
                0int
            }));
            assert((s.last() == (upto - 1) as u8) == ((s.last() as int) == upto - 1)) by {
                assert(((upto - 1) as u8) as int == upto - 1);
            };
        }
    }
}

proof fn lemma_pair_sum_bound(s: Seq<u8>, upto: int, total: int)
    requires
        total >= 1,
        s.len() <= total,
        upto <= 256,
    ensures
        0 <= pair_sum(s, upto) <= (total - 1) * sum_counts(s, upto),
        (total - 1) * sum_counts(s, upto) <= (total - 1) * total,
    decreases upto,
{
    lemma_sum_counts_le_len(s, upto);
    assert((total - 1) * sum_counts(s, upto) <= (total - 1) * total) by (nonlinear_arith)
        requires
            total >= 1,
            sum_counts(s, upto) <= s.len() <= total,
    ;
    if upto > 0 {
        lemma_pair_sum_bound(s, upto - 1, total);
        let c = count_in(s, (upto - 1) as u8);
        lemma_count_le_len(s, (upto - 1) as u8);
        assert(0 <= c * (c - 1) <= (total - 1) * c) by (nonlinear_arith)
            requires
                0 <= c <= total,
        ;
        assert((total - 1) * sum_counts(s, upto) == (total - 1) * sum_counts(s, upto - 1) + (total
            - 1) * c) by (nonlinear_arith)
            requires
                sum_counts(s, upto) == sum_counts(s, upto - 1) + c,
        ;
    }
}

/// The customary detection threshold for the index of coincidence of
/// English-like text, in microunits.
pub const IOC_THRESHOLD: u64 = 1550000;

/// The index of coincidence of a symbol buffer over `alphabet`, in
/// microunits: how strongly its symbol distribution departs from uniform.
pub fn index_of_coincidence(chars: &Vec<u8>, alphabet: &crate::encoding::Alphabet) -> (r: u64)
    requires
        2 <= chars@.len() <= crate::LEN_CAP,
        1 <= alphabet.spec_len() <= 256,
        forall|k: int|
            0 <= k < chars@.len() ==> (#[trigger] chars@[k] as int) < alphabet.spec_len(),
    ensures
        r == ioc_spec(chars@, alphabet.spec_len() as int),
        r <= 256000000,
{
    let alpha_len = alphabet.len();
    let mut counts: Vec<u64> = Vec::new();
    let mut v: usize = 0;
    while v < alpha_len
        invariant
            v <= alpha_len,
            counts@.len() == v,
            forall|x: int| 0 <= x < v ==> counts@[x] == 0u64,
        decreases alpha_len - v,
    {
        counts.push(0);
        v = v + 1;
    }
    let n = chars.len();
    let mut k: usize = 0;
    proof {
        assert forall|x: u8| count_in(chars@.subrange(0, 0), x) == 0 by {
            assert(chars@.subrange(0, 0) =~= Seq::<u8>::empty());
        };
    }
    while k < n
        invariant
            k <= n == chars@.len() <= crate::LEN_CAP,
            counts@.len() == alpha_len == alphabet.spec_len(),
            alpha_len <= 256,
            forall|t: int|
                0 <= t < chars@.len() ==> (#[trigger] chars@[t] as int) < alphabet.spec_len(),
            forall|x: int|
                0 <= x < alpha_len ==> counts@[x] == count_in(chars@.subrange(0, k as int), (
                x as u8)),
        decreases n - k,
    {
        let c = chars[k] as usize;
        proof {
            lemma_count_step(chars@, k as int);
            lemma_count_le_len(chars@.subrange(0, k as int), c as u8);
        }
        let cur = counts[c];
        counts.set(c, cur + 1);
        proof {
            assert forall|x: int|
                0 <= x < alpha_len implies counts@[x] == count_in(
                chars@.subrange(0, k + 1),
                (x as u8),
            ) by {
                assert(count_in(chars@.subrange(0, k + 1), x as u8) == count_in(
                    chars@.subrange(0, k as int),
                    x as u8,
                ) + (if chars@[k as int] == x as u8 {
                    1int
                } else {
                    0int
                }));
                if x != c as int {
                    assert(c < 256);
                    assert(chars@[k as int] == (c as u8));
                    assert(((c as u8) as int) == c as int);
                    assert(((x as u8) as int) == x);
                    assert(chars@[k as int] != x as u8);
                }
            };
        }
        k = k + 1;
    }
    proof {
        assert(chars@.subrange(0, n as int) =~= chars@);
    }

    let mut numer: u64 = 0;
    let mut v: usize = 0;
    while v < alpha_len
        invariant
            v <= alpha_len == alphabet.spec_len() <= 256,
            counts@.len() == alpha_len,
            2 <= chars@.len() <= crate::LEN_CAP,
            forall|x: int| 0 <= x < alpha_len ==> counts@[x] == count_in(chars@, (x as u8)),
            numer == pair_sum(chars@, v as int),
            numer <= (chars@.len() - 1) * chars@.len(),
        decreases alpha_len - v,
    {
        proof {
            lemma_pair_sum_bound(chars@, v as int, chars@.len() as int);
            lemma_pair_sum_bound(chars@, v + 1, chars@.len() as int);
            lemma_count_le_len(chars@, v as u8);
            let c = count_in(chars@, v as u8);
            assert(pair_sum(chars@, v + 1) == pair_sum(chars@, v as int) + c * (c - 1));
            assert(c * (c - 1) <= 1000000 * 1000000int) by (nonlinear_arith)
                requires
                    0 <= c <= 1000000,
            ;
            assert((chars@.len() - 1) * chars@.len() <= 1000000 * 1000000int) by (nonlinear_arith)
                requires
                    2 <= chars@.len() <= 1000000,
            ;
            assert(c * (c - 1) >= 0) by (nonlinear_arith)
                requires
                    c >= 0,
            ;
        }
        let c = counts[v];
        let ghost numer0 = numer;
        proof {
            assert(counts@[v as int] == count_in(chars@, (v as u8)));
        }
        if c > 0 {
            numer = numer + c * (c - 1);
        }
        proof {
            let cc = count_in(chars@, (v as u8));
            assert(c as int == cc);
            assert(pair_sum(chars@, v + 1) == pair_sum(chars@, v as int) + cc * (cc - 1));
            if c > 0 {
                assert(numer == numer0 + c * (c - 1));
                assert((c * (c - 1)) as int == cc * (cc - 1)) by (nonlinear_arith)
                    requires
                        c as int == cc,
                        0 < c,
                        c <= 1000000,
                        (c * (c - 1)) as int == (c as int) * (c as int - 1),
                ;
            } else {
                assert(cc == 0);
                assert(cc * (cc - 1) == 0) by (nonlinear_arith)
                    requires
                        cc == 0,
                ;
            }
            assert(numer == pair_sum(chars@, v + 1));
        }
        v = v + 1;
    }
    let total = n as u64;
    proof {
        let a = alpha_len as int;
        let m = numer as int;
        let t = chars@.len() as int;
        assert((chars@.len() - 1) * chars@.len() <= 1000000 * 1000000int) by (nonlinear_arith)
            requires
                2 <= chars@.len() <= 1000000,
        ;
        assert(a * m * (crate::SCALE as int) <= 256 * (1000000 * 1000000int) * 1000000)
            by (nonlinear_arith)
            requires
                1 <= a <= 256,
                0 <= m <= 1000000 * 1000000int,
        ;
        assert(t * (t - 1) >= 2) by (nonlinear_arith)
            requires
                t >= 2,
        ;
    }
    let wide: u128 = (alpha_len as u128) * (numer as u128) * (crate::SCALE as u128) / ((
    total as u128) * ((total - 1) as u128));
    proof {
        let a = alpha_len as int;
        let p = pair_sum(chars@, a);
        let t = chars@.len() as int;
        lemma_pair_sum_bound(chars@, a, t);
        assert(a * p * (crate::SCALE as int) <= 256 * ((t - 1) * t) * 1000000) by (nonlinear_arith)
            requires
                1 <= a <= 256,
                0 <= p <= (t - 1) * t,
                t >= 2,
        ;
        assert(a * p * (crate::SCALE as int) / (t * (t - 1)) <= 256000000) by {
            vstd::arithmetic::div_mod::lemma_div_is_ordered(
                a * p * (crate::SCALE as int),
                256 * ((t - 1) * t) * 1000000,
                t * (t - 1),
            );
            assert(256 * ((t - 1) * t) * 1000000 == (t * (t - 1)) * 256000000) by (nonlinear_arith);
            vstd::arithmetic::div_mod::lemma_div_multiples_vanish(256000000, t * (t - 1));
        };
        vstd::arithmetic::div_mod::lemma_div_pos_is_pos(a * p * (crate::SCALE as int), t * (t - 1));
    }
    wide as u64
}

/// The width-`period` slice of `chars` starting at offset `i`: every
/// `period`th symbol, as many as fit.
pub open spec fn period_slice(chars: Seq<u8>, period: int, i: int) -> Seq<u8> {
    Seq::new((chars.len() as int / period) as nat, |j: int| chars[period * j + i])
}

/// The sum of the coincidence indices of the first `upto` slices of width
/// `period`.
pub open spec fn period_ioc_sum(chars: Seq<u8>, alpha: int, period: int, upto: int) -> int
    decreases upto,
{
    if upto <= 0 {
        0
    } else {
        period_ioc_sum(chars, alpha, period, upto - 1) + ioc_spec(
            period_slice(chars, period, upto - 1),
            alpha,
        )
    }
}

/// Whether width `period` stands out: the average coincidence index of its
/// slices exceeds the threshold, compared without division as a sum against
/// `threshold * period`.
pub open spec fn period_detected(chars: Seq<u8>, alpha: int, period: int, threshold: int) -> bool {
    period_ioc_sum(chars, alpha, period, period) > threshold * period
}

/// Estimate the key period of a buffer: the smallest width, up to half the
/// buffer length, whose slices' average coincidence index exceeds the
/// threshold (in microunits); half the buffer length when none does.
pub fn estimate_key_period_by_index_of_coincidence(
    chars: &Vec<u8>,
    alphabet: &crate::encoding::Alphabet,
    ioc_threshold: u64,
) -> (r: u32)
    requires
        2 <= chars@.len() <= crate::LEN_CAP,
        1 <= alphabet.spec_len() <= 256,
        ioc_threshold <= 1000000000,
        forall|k: int|
            0 <= k < chars@.len() ==> (#[trigger] chars@[k] as int) < alphabet.spec_len(),
    ensures
        1 <= r as int <= chars@.len() / 2 || (chars@.len() / 2 == 0 && r == 1),
        forall|p: int|
            1 <= p < r as int ==> !period_detected(
                chars@,
                alphabet.spec_len() as int,
                p,
                ioc_threshold as int,
            ),
        (r as int) < chars@.len() / 2 ==> period_detected(
            chars@,
            alphabet.spec_len() as int,
            r as int,
            ioc_threshold as int,
        ),
{
    let ghost alpha = alphabet.spec_len() as int;
    let cap = chars.len() / 2;
    if cap <= 1 {
        return 1;
    }
    let mut period: usize = 1;
    while period < cap
        invariant
            1 <= period <= cap == chars@.len() / 2,
            2 <= cap <= 500000,
            2 <= chars@.len() <= crate::LEN_CAP,
            1 <= alphabet.spec_len() <= 256,
            alpha == alphabet.spec_len() as int,
            ioc_threshold <= 1000000000,
            forall|k: int|
                0 <= k < chars@.len() ==> (#[trigger] chars@[k] as int) < alphabet.spec_len(),
            forall|p: int|
                1 <= p < period as int ==> !period_detected(
                    chars@,
                    alpha,
                    p,
                    ioc_threshold as int,
                ),
        decreases cap - period,
    {
        let sum = period_ioc(chars, alphabet, period);
        proof {
            assert((ioc_threshold as int) * (period as int) <= 1000000000 * 500000int)
                by (nonlinear_arith)
                requires
                    ioc_threshold <= 1000000000,
                    0 <= period as int <= 500000,
            ;
        }
        if sum > ioc_threshold * (period as u64) {
            proof {
                assert(period_detected(chars@, alpha, period as int, ioc_threshold as int));
            }
            return period as u32;
        }
        proof {
            assert(!period_detected(chars@, alpha, period as int, ioc_threshold as int));
        }
        period = period + 1;
    }
    cap as u32
}

/// The sum of the coincidence indices of the `period` slices of `chars`.
fn period_ioc(chars: &Vec<u8>, alphabet: &crate::encoding::Alphabet, period: usize) -> (r: u64)
    requires
        2 <= chars@.len() <= crate::LEN_CAP,
        1 <= alphabet.spec_len() <= 256,
        1 <= period as int <= chars@.len() / 2,
        forall|k: int|
            0 <= k < chars@.len() ==> (#[trigger] chars@[k] as int) < alphabet.spec_len(),
    ensures
        r == period_ioc_sum(
            chars@,
            alphabet.spec_len() as int,
            period as int,
            period as int,
        ),
{
    proof {
        vstd::arithmetic::div_mod::lemma_div_is_ordered(
            2 * period as int,
            chars@.len() as int,
            period as int,
        );
        vstd::arithmetic::div_mod::lemma_div_multiples_vanish(2, period as int);
        assert(2 * (period as int) <= chars@.len()) by {
            vstd::arithmetic::div_mod::lemma_fundamental_div_mod(
                chars@.len() as int,
                2,
            );
        };
    }
    let slice_len = chars.len() / period;
    proof {
        assert(chars@.len() as int / (period as int) >= 2);
        vstd::arithmetic::div_mod::lemma_fundamental_div_mod(chars@.len() as int, period as int);
        vstd::arithmetic::mul::lemma_mul_is_commutative(period as int, slice_len as int);
        assert((period as int) * (slice_len as int) <= chars@.len());
    }
    let mut sum: u64 = 0;
    let mut i: usize = 0;
    while i < period
        invariant
            i <= period,
            1 <= period,
            period as int <= 500000,
            2 <= chars@.len() <= crate::LEN_CAP,
            1 <= alphabet.spec_len() <= 256,
            forall|k: int|
                0 <= k < chars@.len() ==> (#[trigger] chars@[k] as int) < alphabet.spec_len(),
            slice_len == chars@.len() as int / (period as int),
            2 <= slice_len,
            (period as int) * (slice_len as int) <= chars@.len(),
            sum == period_ioc_sum(chars@, alphabet.spec_len() as int, period as int, i as int),
            sum <= (i as int) * 256000000,
        decreases period - i,
    {
        let mut slice: Vec<u8> = Vec::new();
        let mut j: usize = 0;
        while j < slice_len
            invariant
                j <= slice_len,
                i < period,
                (period as int) * (slice_len as int) <= chars@.len(),
                chars@.len() <= crate::LEN_CAP,
                slice@.len() == j,
                forall|t: int|
                    0 <= t < j ==> slice@[t] == chars@[(period as int) * t + (i as int)],
            decreases slice_len - j,
        {
            proof {
                assert((period as int) * (j as int) + (i as int) < chars@.len()) by (
                nonlinear_arith)
                    requires
                        0 <= j < slice_len,
                        0 <= i < period,
                        (period as int) * (slice_len as int) <= chars@.len(),
                ;
            }
            slice.push(chars[period * j + i]);
            j = j + 1;
        }
        proof {
            assert(slice@ =~= period_slice(chars@, period as int, i as int));
            assert forall|t: int|
                0 <= t < slice@.len() implies (#[trigger] slice@[t] as int)
                < alphabet.spec_len() by {
                assert(0 <= (period as int) * t + (i as int) < chars@.len()) by (nonlinear_arith)
                    requires
                        0 <= t < slice_len,
                        0 <= i < period,
                        (period as int) * (slice_len as int) <= chars@.len(),
                ;
                assert(slice@[t] == chars@[(period as int) * t + (i as int)]);
            };
        }
        let v = index_of_coincidence(&slice, alphabet);
        sum = sum + v;
        i = i + 1;
    }
    sum
}

} // verus!
