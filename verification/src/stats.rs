//! Statistics over texts: n-gram windows, n-gram counting, and the
//! count-derived language model in human-character space.

use vstd::prelude::*;

verus! {

/// All width-`n` windows of `s`, in left-to-right order: none when the
/// buffer is shorter than the window.
pub open spec fn windows(s: Seq<u8>, n: nat) -> Seq<Seq<u8>> {
    if s.len() < n {
        Seq::empty()
    } else {
        Seq::new((s.len() - n + 1) as nat, |i: int| s.subrange(i, i + n))
    }
}

/// Law: a buffer of length `N` has exactly `N - n + 1` width-`n` windows
/// when `n <= N`, in left-to-right order, and none when `N < n`.
pub proof fn lemma_ngram_coverage(s: Seq<u8>, n: nat)
    requires
        n >= 1,
    ensures
        n <= s.len() ==> windows(s, n).len() == s.len() - n + 1,
        s.len() < n ==> windows(s, n).len() == 0,
        forall|i: int|
            0 <= i < windows(s, n).len() ==> windows(s, n)[i] == s.subrange(i, i + n),
{
}

/// Yields every width-`size` window of a symbol buffer, left to right.
pub struct NGrams {
    slice: Vec<u8>,
    size: usize,
    index: usize,
}

impl NGrams {
    /// The buffer being windowed.
    pub closed spec fn buf(&self) -> Seq<u8> {
        self.slice@
    }

    /// The window width.
    pub closed spec fn spec_size(&self) -> usize {
        self.size
    }

    /// How many windows have been yielded so far.
    pub closed spec fn spec_index(&self) -> usize {
        self.index
    }

    /// Start windowing `slice` with width `size`.
    pub fn new(slice: &Vec<u8>, size: usize) -> (r: Self)
        requires
            size >= 1,
        ensures
            r.buf() == slice@,
            r.spec_size() == size,
            r.spec_index() == 0,
    {
        let mut copy: Vec<u8> = Vec::new();
        let n = slice.len();
        let mut i: usize = 0;
        while i < n
            invariant
                i <= n == slice@.len(),
                copy@ == slice@.subrange(0, i as int),
            decreases n - i,
        {
            copy.push(slice[i]);
            proof {
                assert(copy@ =~= slice@.subrange(0, i + 1));
            }
            i = i + 1;
        }
        proof {
            assert(copy@ =~= slice@);
        }
        Self { slice: copy, size, index: 0 }
    }

    /// The next window, or `None` once every window has been yielded.
    pub fn next(&mut self) -> (r: Option<Vec<u8>>)
        requires
            old(self).spec_size() >= 1,
        ensures
            final(self).buf() == old(self).buf(),
            final(self).spec_size() == old(self).spec_size(),
            old(self).spec_index() + old(self).spec_size() <= old(self).buf().len() ==> {
                &&& final(self).spec_index() == old(self).spec_index() + 1
                &&& r is Some
                &&& r->Some_0@ == windows(old(self).buf(), old(self).spec_size() as nat)[
                    old(self).spec_index() as int]
            },
            old(self).spec_index() + old(self).spec_size() > old(self).buf().len() ==> {
                &&& final(self).spec_index() == old(self).spec_index()
                &&& r is None
            },
    {
        if self.index > self.slice.len() || self.size > self.slice.len() - self.index {
            return None;
        }
        let mut gram: Vec<u8> = Vec::new();
        let from = self.index;
        let to = self.index + self.size;
        let mut i: usize = from;
        while i < to
            invariant
                from <= i <= to <= self.slice@.len(),
                gram@ == self.slice@.subrange(from as int, i as int),
            decreases to - i,
        {
            gram.push(self.slice[i]);
            proof {
                assert(gram@ =~= self.slice@.subrange(from as int, i + 1));
            }
            i = i + 1;
        }
        self.index = self.index + 1;
        Some(gram)
    }
}

/// Total of all counts in a row list.
pub open spec fn total_in(entries: Seq<(Vec<char>, u64)>) -> int
    decreases entries.len(),
{
    if entries.len() == 0 {
        0
    } else {
        entries.last().1 + total_in(entries.drop_last())
    }
}

/// The count recorded for gram `g` in a row list: the sum over rows whose
/// gram reads `g` (zero when none does).
pub open spec fn gram_count_in(entries: Seq<(Vec<char>, u64)>, g: Seq<char>) -> int
    decreases entries.len(),
{
    if entries.len() == 0 {
        0
    } else {
        (if entries.last().0@ == g {
            entries.last().1 as int
        } else {
            0int
        }) + gram_count_in(entries.drop_last(), g)
    }
}

/// How many of the first `k` width-`n` windows of `s` read `g`.
pub open spec fn occurrences_upto(s: Seq<char>, g: Seq<char>, n: nat, k: int) -> int
    decreases k,
{
    if k <= 0 {
        0
    } else {
        occurrences_upto(s, g, n, k - 1) + (if s.subrange(k - 1, k - 1 + n) == g {
            1int
        } else {
            0int
        })
    }
}

/// How many width-`n` windows of `s` read `g`.
pub open spec fn occurrences(s: Seq<char>, g: Seq<char>, n: nat) -> int {
    if s.len() < n {
        0
    } else {
        occurrences_upto(s, g, n, s.len() - n + 1)
    }
}

proof fn lemma_total_prefix_le(s: Seq<(Vec<char>, u64)>, k: int)
    requires
        0 <= k <= s.len(),
    ensures
        total_in(s.subrange(0, k)) <= total_in(s),
    decreases s.len(),
{
    if k == s.len() {
        assert(s.subrange(0, k) =~= s);
    } else {
        assert(s.drop_last().subrange(0, k) =~= s.subrange(0, k));
        lemma_total_prefix_le(s.drop_last(), k);
    }
}

proof fn lemma_count_le_total(s: Seq<(Vec<char>, u64)>, i: int)
    requires
        0 <= i < s.len(),
    ensures
        s[i].1 <= total_in(s),
        gram_count_in(s, s[i].0@) >= s[i].1,
    decreases s.len(),
{
    lemma_gram_count_nonneg(s, s[i].0@);
    if i == s.len() - 1 {
        lemma_total_nonneg(s.drop_last());
        lemma_gram_count_nonneg(s.drop_last(), s[i].0@);
    } else {
        lemma_count_le_total(s.drop_last(), i);
    }
}

proof fn lemma_total_nonneg(s: Seq<(Vec<char>, u64)>)
    ensures
        total_in(s) >= 0,
    decreases s.len(),
{
    if s.len() > 0 {
        lemma_total_nonneg(s.drop_last());
    }
}

proof fn lemma_gram_count_nonneg(s: Seq<(Vec<char>, u64)>, g: Seq<char>)
    ensures
        gram_count_in(s, g) >= 0,
    decreases s.len(),
{
    if s.len() > 0 {
        lemma_gram_count_nonneg(s.drop_last(), g);
    }
}

proof fn lemma_count_update(s: Seq<(Vec<char>, u64)>, i: int, v: (Vec<char>, u64), g: Seq<char>)
    requires
        0 <= i < s.len(),
        v.0@ == s[i].0@,
        v.1 == s[i].1 + 1,
    ensures
        gram_count_in(s.update(i, v), g) == gram_count_in(s, g) + (if s[i].0@ == g {
            1int
        } else {
            0int
        }),
        total_in(s.update(i, v)) == total_in(s) + 1,
    decreases s.len(),
{
    if i == s.len() - 1 {
        assert(s.update(i, v).drop_last() =~= s.drop_last());
        assert(s.update(i, v).last() == v);
    } else {
        assert(s.update(i, v).drop_last() =~= s.drop_last().update(i, v));
        assert(s.update(i, v).last() == s.last());
        lemma_count_update(s.drop_last(), i, v, g);
    }
}

/// Counts the width-`n` grams of texts fed through `add`.
pub struct Count {
    entries: Vec<(Vec<char>, u64)>,
    n: usize,
}

impl Count {
    /// The recorded rows: each a gram with its count.
    pub closed spec fn rows(&self) -> Seq<(Vec<char>, u64)> {
        self.entries@
    }

    /// The gram width being counted.
    pub closed spec fn spec_n(&self) -> usize {
        self.n
    }

    /// The count recorded for gram `g`, zero when `g` was never seen.
    pub open spec fn gram_count(&self, g: Seq<char>) -> int {
        gram_count_in(self.rows(), g)
    }

    /// The sum of all recorded counts.
    pub open spec fn total_spec(&self) -> int {
        total_in(self.rows())
    }

    /// Every row holds a width-`n` gram, no gram is recorded twice, and the
    /// width is positive.
    pub open spec fn wf(&self) -> bool {
        &&& self.spec_n() >= 1
        &&& forall|i: int| 0 <= i < self.rows().len() ==> (#[trigger] self.rows()[i]).0@.len()
            == self.spec_n()
        &&& forall|i: int, j: int|
            0 <= i < j < self.rows().len() ==> self.rows()[i].0@ != self.rows()[j].0@
    }

    /// An empty counter of width-`n` grams.
    pub fn new(n: usize) -> (r: Self)
        requires
            n >= 1,
        ensures
            r.wf(),
            r.spec_n() == n,
            r.rows() == Seq::<(Vec<char>, u64)>::empty(),
    {
        let entries: Vec<(Vec<char>, u64)> = Vec::new();
        proof {
            assert(entries@ =~= Seq::<(Vec<char>, u64)>::empty());
        }
        Self { entries, n }
    }

    /// The sum of all recorded counts.
    pub fn total(&self) -> (r: u64)
        requires
            self.total_spec() <= u64::MAX,
        ensures
            r == self.total_spec(),
    {
        let mut acc: u64 = 0;
        let mut i: usize = 0;
        let len = self.entries.len();
        while i < len
            invariant
                i <= len == self.rows().len(),
                acc == total_in(self.rows().subrange(0, i as int)),
                self.total_spec() <= u64::MAX,
            decreases len - i,
        {
            proof {
                assert(self.rows().subrange(0, i + 1).drop_last() =~= self.rows().subrange(
                    0,
                    i as int,
                ));
                assert(self.rows().subrange(0, i + 1).last() == self.rows()[i as int]);
                lemma_total_prefix_le(self.rows(), i + 1);
                lemma_total_nonneg(self.rows().subrange(0, i as int));
            }
            acc = acc + self.entries[i].1;
            i = i + 1;
        }
        proof {
            assert(self.rows().subrange(0, len as int) =~= self.rows());
        }
        acc
    }

    /// The row whose gram reads `g`, if one exists.
    fn find_gram(&self, g: &Vec<char>) -> (r: Option<usize>)
        ensures
            match r {
                Some(i) => i < self.rows().len() && self.rows()[i as int].0@ == g@,
                None => forall|i: int|
                    0 <= i < self.rows().len() ==> (#[trigger] self.rows()[i]).0@ != g@,
            },
    {
        let len = self.entries.len();
        let mut i: usize = 0;
        while i < len
            invariant
                i <= len == self.rows().len(),
                forall|t: int| 0 <= t < i ==> (#[trigger] self.rows()[t]).0@ != g@,
            decreases len - i,
        {
            if char_vecs_equal(&self.entries[i].0, g) {
                return Some(i);
            }
            i = i + 1;
        }
        None
    }

    /// Record every width-`n` window of `input`: each window's count rises
    /// by one, every other gram's count is unchanged.
    pub fn add(&mut self, input: &str)
        requires
            old(self).wf(),
            input@.len() >= old(self).spec_n() ==> old(self).total_spec() + (input@.len()
                - old(self).spec_n() + 1) <= u64::MAX,
        ensures
            final(self).wf(),
            final(self).spec_n() == old(self).spec_n(),
            forall|g: Seq<char>|
                #[trigger] final(self).gram_count(g) == old(self).gram_count(g) + occurrences(
                    input@,
                    g,
                    old(self).spec_n() as nat,
                ),
    {
        let ghost n_spec = self.spec_n() as nat;
        let len = input.unicode_len();
        if len < self.n {
            return ;
        }
        let mut chars: Vec<char> = Vec::new();
        let mut i: usize = 0;
        while i < len
            invariant
                i <= len == input@.len(),
                chars@ == input@.subrange(0, i as int),
            decreases len - i,
        {
            chars.push(input.get_char(i));
            proof {
                assert(chars@ =~= input@.subrange(0, i + 1));
            }
            i = i + 1;
        }
        proof {
            assert(chars@ =~= input@);
        }
        let count = (len - self.n) + 1;
        let mut i: usize = 0;
        while i < count
            invariant
                i <= count,
                len == input@.len(),
                count + self.spec_n() == len + 1,
                count == input@.len() - self.spec_n() + 1,
                chars@ == input@,
                self.wf(),
                self.spec_n() == old(self).spec_n(),
                n_spec == self.spec_n() as nat,
                self.spec_n() <= input@.len(),
                old(self).total_spec() + count <= u64::MAX,
                self.total_spec() == old(self).total_spec() + i,
                forall|g: Seq<char>|
                    #[trigger] self.gram_count(g) == old(self).gram_count(g) + occurrences_upto(
                        input@,
                        g,
                        n_spec,
                        i as int,
                    ),
            decreases count - i,
        {
            let mut gram: Vec<char> = Vec::new();
            let to = i + self.n;
            let mut j: usize = i;
            while j < to
                invariant
                    i <= j <= to <= chars@.len(),
                    gram@ == chars@.subrange(i as int, j as int),
                decreases to - j,
            {
                gram.push(chars[j]);
                proof {
                    assert(gram@ =~= chars@.subrange(i as int, j + 1));
                }
                j = j + 1;
            }
            let ghost head = *self;
            let ghost pre = self.rows();
            let ghost gv = gram@;
            proof {
                assert(gv =~= input@.subrange(i as int, i + n_spec));
            }
            match self.find_gram(&gram) {
                Some(idx) => {
                    proof {
                        lemma_count_le_total(pre, idx as int);
                        lemma_total_nonneg(pre);
                    }
                    let c = self.entries[idx].1;
                    let ghost v_g = (gram, (c + 1) as u64);
                    self.entries.set(idx, (gram, c + 1));
                    proof {
                        assert forall|g: Seq<char>|
                            #[trigger] gram_count_in(self.rows(), g) == gram_count_in(pre, g) + (
                            if gv == g {
                                1int
                            } else {
                                0int
                            }) by {
                            lemma_count_update(pre, idx as int, v_g, g);
                            assert(pre[idx as int].0@ == gv);
                        };
                        lemma_count_update(pre, idx as int, v_g, pre[idx as int].0@);
                    }
                },
                None => {
                    self.entries.push((gram, 1));
                    proof {
                        assert(self.rows().drop_last() =~= pre);
                        assert(self.rows().last().0@ == gv);
                        assert forall|g: Seq<char>|
                            #[trigger] gram_count_in(self.rows(), g) == gram_count_in(pre, g) + (
                            if gv == g {
                                1int
                            } else {
                                0int
                            }) by {
                            assert(gram_count_in(self.rows(), g) == (if self.rows().last().0@ == g {
                                self.rows().last().1 as int
                            } else {
                                0int
                            }) + gram_count_in(pre, g));
                        };
                    }
                },
            }
            proof {
                assert forall|g: Seq<char>|
                    #[trigger] self.gram_count(g) == old(self).gram_count(g) + occurrences_upto(
                        input@,
                        g,
                        n_spec,
                        i + 1,
                    ) by {
                    assert(occurrences_upto(input@, g, n_spec, i + 1) == occurrences_upto(
                        input@,
                        g,
                        n_spec,
                        i as int,
                    ) + (if input@.subrange(i as int, i + n_spec) == g {
                        1int
                    } else {
                        0int
                    }));
                    assert(gram_count_in(self.rows(), g) == gram_count_in(pre, g) + (if gv == g {
                        1int
                    } else {
                        0int
                    }));
                    assert(head.gram_count(g) == old(self).gram_count(g) + occurrences_upto(
                        input@,
                        g,
                        n_spec,
                        i as int,
                    ));
                    assert(gram_count_in(pre, g) == head.gram_count(g));
                };
            }
            i = i + 1;
        }
    }
}

proof fn lemma_gram_count_distinct(s: Seq<(Vec<char>, u64)>, g: Seq<char>)
    requires
        forall|i: int, j: int| 0 <= i < j < s.len() ==> s[i].0@ != s[j].0@,
    ensures
        forall|i: int|
            0 <= i < s.len() && (#[trigger] s[i]).0@ == g ==> gram_count_in(s, g) == s[i].1,
        (forall|i: int| 0 <= i < s.len() ==> (#[trigger] s[i]).0@ != g) ==> gram_count_in(s, g)
            == 0,
    decreases s.len(),
{
    if s.len() > 0 {
        lemma_gram_count_distinct(s.drop_last(), g);
        assert(forall|i: int| 0 <= i < s.len() - 1 ==> s.drop_last()[i] == s[i]);
        if s.last().0@ == g {
            assert(forall|i: int| 0 <= i < s.len() - 1 ==> (#[trigger] s[i]).0@ != g);
            assert(gram_count_in(s.drop_last(), g) == 0);
        }
    }
}

impl Count {
    /// The count recorded for a gram, zero when it was never seen.
    pub fn count_of(&self, gram: &Vec<char>) -> (r: u64)
        requires
            self.wf(),
        ensures
            r as int == self.gram_count(gram@),
    {
        proof {
            lemma_gram_count_distinct(self.rows(), gram@);
        }
        match self.find_gram(gram) {
            Some(i) => self.entries[i].1,
            None => 0,
        }
    }

    /// How many distinct grams are recorded.
    pub fn len(&self) -> (r: usize)
        ensures
            r == self.rows().len(),
    {
        self.entries.len()
    }
}

/// A language model in human-character space: each width-`n` gram carries a
/// score in microunits, and grams outside the table score `floor`.
pub struct Frequency {
    entries: Vec<(Vec<char>, i64)>,
    n: usize,
    floor: i64,
}

impl Frequency {
    /// The recorded rows: each a gram with its score.
    pub closed spec fn rows(&self) -> Seq<(Vec<char>, i64)> {
        self.entries@
    }

    /// The gram width.
    pub closed spec fn spec_n(&self) -> usize {
        self.n
    }

    /// The score of grams absent from the table.
    pub closed spec fn spec_floor(&self) -> i64 {
        self.floor
    }

    /// The width is in the supported range, the floor and every score are
    /// within the cap, every gram has the right width, and no gram repeats.
    pub open spec fn wf(&self) -> bool {
        &&& 1 <= self.spec_n() <= 8
        &&& 0 <= self.spec_floor() <= crate::SCORE_CAP
        &&& forall|i: int| 0 <= i < self.rows().len() ==> (#[trigger] self.rows()[i]).0@.len()
            == self.spec_n()
        &&& forall|i: int| 0 <= i < self.rows().len() ==> 0 <= (#[trigger] self.rows()[i]).1
            <= crate::SCORE_CAP
        &&& forall|i: int, j: int|
            0 <= i < j < self.rows().len() ==> self.rows()[i].0@ != self.rows()[j].0@
    }

    /// An empty model of width-`n` grams with the given out-of-table floor.
    pub fn new(n: usize, floor: i64) -> (r: Self)
        requires
            1 <= n <= 8,
            0 <= floor <= crate::SCORE_CAP,
        ensures
            r.wf(),
            r.spec_n() == n,
            r.spec_floor() == floor,
            r.rows() == Seq::<(Vec<char>, i64)>::empty(),
    {
        let entries: Vec<(Vec<char>, i64)> = Vec::new();
        proof {
            assert(entries@ =~= Seq::<(Vec<char>, i64)>::empty());
        }
        Self { entries, n, floor }
    }

    /// Record the score of a gram not yet in the table.
    pub fn insert(&mut self, gram: Vec<char>, score: i64)
        requires
            old(self).wf(),
            gram@.len() == old(self).spec_n(),
            0 <= score <= crate::SCORE_CAP,
            forall|i: int|
                0 <= i < old(self).rows().len() ==> (#[trigger] old(self).rows()[i]).0@ != gram@,
        ensures
            final(self).wf(),
            final(self).spec_n() == old(self).spec_n(),
            final(self).spec_floor() == old(self).spec_floor(),
            final(self).rows() == old(self).rows().push((gram, score)),
    {
        let ghost pre = self.rows();
        let ghost gv = gram@;
        self.entries.push((gram, score));
        proof {
            assert(self.rows().len() == pre.len() + 1);
            assert(forall|i: int| 0 <= i < pre.len() ==> self.rows()[i] == pre[i]);
            assert(self.rows().last().0@ == gv);
        }
    }

    /// How many grams the table records.
    pub fn len(&self) -> (r: usize)
        ensures
            r == self.rows().len(),
    {
        self.entries.len()
    }

    /// The gram of row `i`.
    pub fn gram_at(&self, i: usize) -> (r: Vec<char>)
        requires
            i < self.rows().len(),
        ensures
            r@ == self.rows()[i as int].0@,
    {
        let gram = &self.entries[i].0;
        let len = gram.len();
        let mut r: Vec<char> = Vec::new();
        let mut k: usize = 0;
        while k < len
            invariant
                k <= len == gram@.len(),
                r@ == gram@.subrange(0, k as int),
            decreases len - k,
        {
            r.push(gram[k]);
            proof {
                assert(r@ =~= gram@.subrange(0, k + 1));
            }
            k = k + 1;
        }
        proof {
            assert(r@ =~= gram@);
        }
        r
    }

    /// The score of row `i`.
    pub fn score_at(&self, i: usize) -> (r: i64)
        requires
            i < self.rows().len(),
        ensures
            r == self.rows()[i as int].1,
    {
        self.entries[i].1
    }

    /// The gram width.
    pub fn n(&self) -> (r: usize)
        ensures
            r == self.spec_n(),
    {
        self.n
    }

    /// The score of grams absent from the table.
    pub fn floor_value(&self) -> (r: i64)
        ensures
            r == self.spec_floor(),
    {
        self.floor
    }
}

/// Whitespace within a count-table line.
pub open spec fn is_ws(c: char) -> bool {
    c == ' ' || c == '\t' || c == '\r'
}

/// An ASCII decimal digit.
pub open spec fn is_digit(c: char) -> bool {
    '0' <= c && c <= '9'
}

/// The first position at or after `from` whose character satisfies `stop`,
/// or the end of the sequence when none does.
pub open spec fn scan_until(l: Seq<char>, from: int, stop: spec_fn(char) -> bool) -> int
    decreases l.len() - from,
    when 0 <= from <= l.len()
{
    if from >= l.len() {
        l.len() as int
    } else if stop(l[from]) {
        from
    } else {
        scan_until(l, from + 1, stop)
    }
}

/// A scan lands between its start and the end of the sequence.
pub proof fn lemma_scan_until_bounds(l: Seq<char>, from: int, stop: spec_fn(char) -> bool)
    requires
        0 <= from <= l.len(),
    ensures
        from <= scan_until(l, from, stop) <= l.len(),
    decreases l.len() - from,
{
    if from < l.len() && !stop(l[from]) {
        lemma_scan_until_bounds(l, from + 1, stop);
    }
}

/// A scan lands exactly at the first stopping position.
pub proof fn lemma_scan_until_at(l: Seq<char>, from: int, upto: int, stop: spec_fn(char) -> bool)
    requires
        0 <= from <= upto <= l.len(),
        forall|t: int| from <= t < upto ==> !#[trigger] stop(l[t]),
        upto == l.len() || stop(l[upto]),
    ensures
        scan_until(l, from, stop) == upto,
    decreases upto - from,
{
    if from < upto {
        lemma_scan_until_at(l, from + 1, upto, stop);
    }
}

/// The numeric value of a decimal digit character.
pub open spec fn digit_val(c: char) -> int {
    (c as int) - 48
}

/// The value of a run of decimal digits, most significant first.
pub open spec fn digits_val(s: Seq<char>) -> int
    decreases s.len(),
{
    if s.len() == 0 {
        0
    } else {
        digits_val(s.drop_last()) * 10 + digit_val(s.last())
    }
}

/// A run of digits has a nonnegative value, no smaller than any prefix's.
pub proof fn lemma_digits_val_prefix(s: Seq<char>, k: int)
    requires
        0 <= k <= s.len(),
        forall|t: int| 0 <= t < s.len() ==> is_digit(#[trigger] s[t]),
    ensures
        0 <= digits_val(s.subrange(0, k)) <= digits_val(s),
    decreases s.len() - k,
{
    lemma_digits_val_nonneg(s.subrange(0, k));
    if k < s.len() {
        assert(s.subrange(0, k + 1).drop_last() =~= s.subrange(0, k));
        assert(s.subrange(0, k + 1).last() == s[k]);
        assert(is_digit(s[k]));
        lemma_digits_val_nonneg(s.subrange(0, k));
        lemma_digits_val_prefix(s, k + 1);
    } else {
        assert(s.subrange(0, k) =~= s);
    }
}

proof fn lemma_digits_val_nonneg(s: Seq<char>)
    requires
        forall|t: int| 0 <= t < s.len() ==> is_digit(#[trigger] s[t]),
    ensures
        digits_val(s) >= 0,
    decreases s.len(),
{
    if s.len() > 0 {
        assert(forall|t: int| 0 <= t < s.drop_last().len() ==> is_digit(#[trigger] s.drop_last()[t]));
        lemma_digits_val_nonneg(s.drop_last());
        assert(is_digit(s.last()));
    }
}

/// Where the gram of a line starts: its first non-whitespace position.
pub open spec fn gram_start(l: Seq<char>) -> int {
    scan_until(l, 0, |c: char| !is_ws(c))
}

/// Where the gram of a line ends: the first whitespace after it.
pub open spec fn gram_end(l: Seq<char>) -> int {
    scan_until(l, gram_start(l), |c: char| is_ws(c))
}

/// Where the count of a line starts: the first non-whitespace after the gram.
pub open spec fn count_start(l: Seq<char>) -> int {
    scan_until(l, gram_end(l), |c: char| !is_ws(c))
}

/// Where the count of a line ends: the first whitespace after it.
pub open spec fn count_end(l: Seq<char>) -> int {
    scan_until(l, count_start(l), |c: char| is_ws(c))
}

/// A line of nothing but whitespace.
pub open spec fn line_blank(l: Seq<char>) -> bool {
    gram_start(l) == l.len()
}

/// The gram a line declares.
pub open spec fn line_gram(l: Seq<char>) -> Seq<char> {
    l.subrange(gram_start(l), gram_end(l))
}

/// The digits of the count a line declares.
pub open spec fn line_digits(l: Seq<char>) -> Seq<char> {
    l.subrange(count_start(l), count_end(l))
}

/// The count a line declares.
pub open spec fn line_count(l: Seq<char>) -> int {
    digits_val(line_digits(l))
}

/// A well-formed count-table line: a gram of exactly `n` characters, then a
/// run of decimal digits whose value fits a `u64`, and nothing else but
/// whitespace.
pub open spec fn line_well_formed(l: Seq<char>, n: int) -> bool {
    &&& gram_start(l) < l.len()
    &&& gram_end(l) - gram_start(l) == n
    &&& count_start(l) < l.len()
    &&& forall|t: int| count_start(l) <= t < count_end(l) ==> is_digit(#[trigger] l[t])
    &&& scan_until(l, count_end(l), |c: char| !is_ws(c)) == l.len()
    &&& line_count(l) <= u64::MAX
}

/// Why a count table was rejected.
#[derive(Clone, Copy, Debug, PartialEq, Eq, Structural)]
pub enum TableError {
    /// A line is not `<gram> <count>` with the declared gram width.
    Malformed,
    /// The same gram is listed twice.
    Duplicate,
}

/// Parse one count-table line: `None` for a blank line, the gram and its
/// count for a well-formed line, and `Malformed` for anything else.
pub fn parse_count_line(line: &Vec<char>, n: usize) -> (r: Result<
    Option<(Vec<char>, u64)>,
    TableError,
>)
    ensures
        line_blank(line@) ==> r == Ok::<Option<(Vec<char>, u64)>, TableError>(None),
        !line_blank(line@) && line_well_formed(line@, n as int) ==> {
            &&& r is Ok
            &&& r->Ok_0 is Some
            &&& r->Ok_0->Some_0.0@ == line_gram(line@)
            &&& r->Ok_0->Some_0.0@.len() == n
            &&& r->Ok_0->Some_0.1 as int == line_count(line@)
        },
        !line_blank(line@) && !line_well_formed(line@, n as int) ==> r == Err::<
            Option<(Vec<char>, u64)>,
            TableError,
        >(TableError::Malformed),
{
    let len = line.len();

    let mut a: usize = 0;
    while a < len && (line[a] == ' ' || line[a] == '\t' || line[a] == '\r')
        invariant
            a <= len == line@.len(),
            forall|t: int| 0 <= t < a ==> is_ws(#[trigger] line@[t]),
        decreases len - a,
    {
        a = a + 1;
    }
    proof {
        lemma_scan_until_at(line@, 0, a as int, |c: char| !is_ws(c));
        assert(gram_start(line@) == a as int);
    }
    if a == len {
        return Ok(None);
    }

    let mut b: usize = a;
    while b < len && !(line[b] == ' ' || line[b] == '\t' || line[b] == '\r')
        invariant
            a <= b <= len == line@.len(),
            forall|t: int| a <= t < b ==> !is_ws(#[trigger] line@[t]),
        decreases len - b,
    {
        b = b + 1;
    }
    proof {
        lemma_scan_until_at(line@, a as int, b as int, |c: char| is_ws(c));
        assert(gram_end(line@) == b as int);
    }
    if b - a != n {
        return Err(TableError::Malformed);
    }
    let mut gram: Vec<char> = Vec::new();
    let mut t: usize = a;
    while t < b
        invariant
            a <= t <= b <= line@.len(),
            gram@ == line@.subrange(a as int, t as int),
        decreases b - t,
    {
        gram.push(line[t]);
        proof {
            assert(gram@ =~= line@.subrange(a as int, t + 1));
        }
        t = t + 1;
    }

    let mut c: usize = b;
    while c < len && (line[c] == ' ' || line[c] == '\t' || line[c] == '\r')
        invariant
            b <= c <= len == line@.len(),
            forall|t: int| b <= t < c ==> is_ws(#[trigger] line@[t]),
        decreases len - c,
    {
        c = c + 1;
    }
    proof {
        lemma_scan_until_at(line@, b as int, c as int, |c: char| !is_ws(c));
        assert(count_start(line@) == c as int);
    }
    if c == len {
        return Err(TableError::Malformed);
    }

    let mut d: usize = c;
    let mut val: u64 = 0;
    proof {
        assert(line@.subrange(c as int, c as int) =~= Seq::<char>::empty());
    }
    while d < len && !(line[d] == ' ' || line[d] == '\t' || line[d] == '\r')
        invariant
            c <= d <= len == line@.len(),
            count_start(line@) == c as int,
            !line_blank(line@),
            forall|t: int| c <= t < d ==> !is_ws(#[trigger] line@[t]),
            forall|t: int| c <= t < d ==> is_digit(#[trigger] line@[t]),
            val as int == digits_val(line@.subrange(c as int, d as int)),
        decreases len - d,
    {
        let ch = line[d];
        if !('0' <= ch && ch <= '9') {
            proof {
                lemma_scan_until_seg(line@, c as int, d as int, |c: char| is_ws(c));
                lemma_scan_until_bounds(line@, d + 1, |c: char| is_ws(c));
                assert(scan_until(line@, d as int, |c: char| is_ws(c)) == scan_until(
                    line@,
                    d + 1,
                    |c: char| is_ws(c),
                ));
                assert(count_end(line@) >= d + 1);
                assert(!is_digit(line@[d as int]));
                assert(!line_well_formed(line@, n as int));
            }
            return Err(TableError::Malformed);
        }
        let digit = ((ch as u32) - 48) as u64;
        proof {
            assert(line@.subrange(c as int, d + 1).drop_last() =~= line@.subrange(c as int, d as int));
            assert(line@.subrange(c as int, d + 1).last() == line@[d as int]);
            assert(digit as int == digit_val(line@[d as int]));
        }
        if val > (u64::MAX - digit) / 10 {
            proof {
                lemma_digits_too_big(line@, n as int, c as int, d as int, val as int, digit as int);
            }
            return Err(TableError::Malformed);
        }
        val = val * 10 + digit;
        d = d + 1;
    }
    proof {
        lemma_scan_until_at(line@, c as int, d as int, |c: char| is_ws(c));
        assert(count_end(line@) == d as int);
        assert(line_digits(line@) == line@.subrange(c as int, d as int));
    }

    let mut e: usize = d;
    while e < len && (line[e] == ' ' || line[e] == '\t' || line[e] == '\r')
        invariant
            d <= e <= len == line@.len(),
            forall|t: int| d <= t < e ==> is_ws(#[trigger] line@[t]),
        decreases len - e,
    {
        e = e + 1;
    }
    proof {
        lemma_scan_until_at(line@, d as int, e as int, |c: char| !is_ws(c));
    }
    if e != len {
        proof {
            assert(scan_until(line@, count_end(line@), |c: char| !is_ws(c)) != line@.len());
        }
        return Err(TableError::Malformed);
    }
    proof {
        assert(line_well_formed(line@, n as int));
        assert(gram@ =~= line_gram(line@));
    }
    Ok(Some((gram, val)))
}

/// A scan from `from` lands where a scan from a later unstopped position
/// `mid` lands, provided nothing in between stops it.
proof fn lemma_scan_until_seg(l: Seq<char>, from: int, mid: int, stop: spec_fn(char) -> bool)
    requires
        0 <= from <= mid <= l.len(),
        forall|t: int| from <= t < mid ==> !#[trigger] stop(l[t]),
    ensures
        scan_until(l, from, stop) == scan_until(l, mid, stop),
    decreases mid - from,
{
    if from < mid {
        lemma_scan_until_seg(l, from + 1, mid, stop);
    }
}

/// A digit run whose prefix already exceeds `u64::MAX` when extended makes
/// the line ill-formed.
proof fn lemma_digits_too_big(l: Seq<char>, n: int, c: int, d: int, val: int, digit: int)
    requires
        0 <= c <= d < l.len(),
        count_start(l) == c,
        forall|t: int| c <= t < d ==> !is_ws(#[trigger] l[t]),
        forall|t: int| c <= t < d ==> is_digit(#[trigger] l[t]),
        !is_ws(l[d]),
        is_digit(l[d]),
        val == digits_val(l.subrange(c, d)),
        digit == digit_val(l[d]),
        val * 10 + digit > u64::MAX,
    ensures
        !line_well_formed(l, n),
{
    if line_well_formed(l, n) {
        let e = count_end(l);
        lemma_scan_until_seg(l, c, d, |c: char| is_ws(c));
        lemma_scan_until_bounds(l, d, |c: char| is_ws(c));
        assert(scan_until(l, d, |c: char| is_ws(c)) > d);
        assert(e > d);
        let digits = line_digits(l);
        assert(forall|t: int| 0 <= t < digits.len() ==> is_digit(#[trigger] digits[t]));
        lemma_digits_val_prefix(digits, d + 1 - c);
        assert(digits.subrange(0, d + 1 - c) =~= l.subrange(c, d + 1));
        assert(l.subrange(c, d + 1).drop_last() =~= l.subrange(c, d));
        assert(l.subrange(c, d + 1).last() == l[d]);
        assert(digits_val(l.subrange(c, d + 1)) == val * 10 + digit);
        assert(line_count(l) >= val * 10 + digit);
        assert(false);
    }
}

/// The count table a text declares, reading from position `from`: the gram
/// and count of every non-blank line, in order.
pub open spec fn table_rows(s: Seq<char>, from: int, n: int) -> Seq<(Seq<char>, int)>
    decreases s.len() - from,
    when 0 <= from <= s.len()
    via table_rows_decreases
{
    let k = scan_until(s, from, |c: char| c == '\n');
    let l = s.subrange(from, k);
    let rest = if k >= s.len() {
        Seq::<(Seq<char>, int)>::empty()
    } else {
        table_rows(s, k + 1, n)
    };
    if line_blank(l) {
        rest
    } else {
        seq![(line_gram(l), line_count(l))] + rest
    }
}

#[via_fn]
proof fn table_rows_decreases(s: Seq<char>, from: int, n: int) {
    lemma_scan_until_bounds(s, from, |c: char| c == '\n');
}

/// Whether every line of the text, read from position `from`, is blank or
/// well formed.
pub open spec fn table_ok(s: Seq<char>, from: int, n: int) -> bool
    decreases s.len() - from,
    when 0 <= from <= s.len()
    via table_ok_decreases
{
    let k = scan_until(s, from, |c: char| c == '\n');
    let l = s.subrange(from, k);
    &&& (line_blank(l) || line_well_formed(l, n))
    &&& (k >= s.len() || table_ok(s, k + 1, n))
}

#[via_fn]
proof fn table_ok_decreases(s: Seq<char>, from: int, n: int) {
    lemma_scan_until_bounds(s, from, |c: char| c == '\n');
}

/// No two rows declare the same gram.
pub open spec fn distinct_grams(rows: Seq<(Seq<char>, int)>) -> bool {
    forall|i: int, j: int| 0 <= i < j < rows.len() ==> rows[i].0 != rows[j].0
}

/// The rows of an executable table, viewed as sequences and integers.
pub open spec fn rows_view(rows: Seq<(Vec<char>, u64)>) -> Seq<(Seq<char>, int)> {
    Seq::new(rows.len(), |i: int| (rows[i].0@, rows[i].1 as int))
}

/// Parse a whole `<gram> <count>` table: the rows of the text's non-blank
/// lines, in order, each gram exactly `n` characters wide.  A text with a
/// malformed line is rejected as `Malformed`, one that lists a gram twice as
/// `Duplicate`, and nothing else is rejected.
pub fn parse_count_table(text: &str, n: usize) -> (r: Result<Vec<(Vec<char>, u64)>, TableError>)
    requires
        text@.len() < usize::MAX,
    ensures
        !table_ok(text@, 0, n as int) ==> r == Err::<Vec<(Vec<char>, u64)>, TableError>(
            TableError::Malformed,
        ),
        table_ok(text@, 0, n as int) && !distinct_grams(table_rows(text@, 0, n as int)) ==> r
            == Err::<Vec<(Vec<char>, u64)>, TableError>(TableError::Duplicate),
        r is Ok ==> {
            let rows = table_rows(text@, 0, n as int);
            &&& table_ok(text@, 0, n as int)
            &&& distinct_grams(rows)
            &&& r->Ok_0@.len() == rows.len()
            &&& forall|t: int|
                0 <= t < rows.len() ==> (#[trigger] r->Ok_0@[t]).0@ == rows[t].0
                    && r->Ok_0@[t].1 as int == rows[t].1
            &&& forall|t: int| 0 <= t < rows.len() ==> (#[trigger] r->Ok_0@[t]).0@.len() == n
        },
{
    let n_chars = text.unicode_len();
    let mut chars: Vec<char> = Vec::new();
    let mut i: usize = 0;
    while i < n_chars
        invariant
            i <= n_chars == text@.len(),
            chars@ == text@.subrange(0, i as int),
        decreases n_chars - i,
    {
        chars.push(text.get_char(i));
        proof {
            assert(chars@ =~= text@.subrange(0, i + 1));
        }
        i = i + 1;
    }
    proof {
        assert(chars@ =~= text@);
    }

    let mut rows: Vec<(Vec<char>, u64)> = Vec::new();
    let mut from: usize = 0;
    while from <= n_chars
        invariant
            from <= n_chars + 1,
            n_chars == text@.len() < usize::MAX,
            chars@ == text@,
            forall|t: int| 0 <= t < rows@.len() ==> (#[trigger] rows@[t]).0@.len() == n,
            from <= n_chars ==> (table_ok(text@, 0, n as int) <==> table_ok(
                text@,
                from as int,
                n as int,
            )),
            from <= n_chars ==> table_rows(text@, 0, n as int) == rows_view(rows@) + table_rows(
                text@,
                from as int,
                n as int,
            ),
            from == n_chars + 1 ==> table_ok(text@, 0, n as int),
            from == n_chars + 1 ==> table_rows(text@, 0, n as int) == rows_view(rows@),
        decreases n_chars + 1 - from,
    {
        let mut line: Vec<char> = Vec::new();
        let mut k: usize = from;
        while k < n_chars && chars[k] != '\n'
            invariant
                from <= k <= n_chars == chars@.len(),
                chars@ == text@,
                line@ == text@.subrange(from as int, k as int),
                forall|t: int| from <= t < k ==> text@[t] != '\n',
            decreases n_chars - k,
        {
            line.push(chars[k]);
            proof {
                assert(line@ =~= text@.subrange(from as int, k + 1));
            }
            k = k + 1;
        }
        proof {
            assert forall|t: int| from <= t < k implies !(#[trigger] text@[t] == '\n') by {}
            lemma_scan_until_at(text@, from as int, k as int, |c: char| c == '\n');
            assert(scan_until(text@, from as int, |c: char| c == '\n') == k as int);
            assert(line@ == text@.subrange(from as int, k as int));
        }
        let ghost lv = line@;
        let ghost rest_rows = if k >= n_chars {
            Seq::<(Seq<char>, int)>::empty()
        } else {
            table_rows(text@, k + 1, n as int)
        };
        proof {
            assert(table_rows(text@, from as int, n as int) == (if line_blank(lv) {
                rest_rows
            } else {
                seq![(line_gram(lv), line_count(lv))] + rest_rows
            }));
            assert(table_ok(text@, from as int, n as int) == ((line_blank(lv)
                || line_well_formed(lv, n as int)) && (k >= n_chars || table_ok(
                text@,
                k + 1,
                n as int,
            ))));
        }
        let parsed = parse_count_line(&line, n);
        let ghost pre_rows = rows@;
        match parsed {
            Result::Err(_) => {
                proof {
                    assert(!line_blank(lv) && !line_well_formed(lv, n as int));
                    assert(!table_ok(text@, from as int, n as int));
                }
                return Err(TableError::Malformed);
            },
            Result::Ok(Option::None) => {
                proof {
                    assert(line_blank(lv));
                }
            },
            Result::Ok(Option::Some(row)) => {
                proof {
                    assert(!line_blank(lv) && line_well_formed(lv, n as int));
                }
                rows.push(row);
                proof {
                    assert(rows_view(rows@) =~= rows_view(pre_rows).push(
                        (line_gram(lv), line_count(lv)),
                    ));
                    assert(rows_view(pre_rows) + (seq![(line_gram(lv), line_count(lv))]
                        + rest_rows) =~= rows_view(rows@) + rest_rows);
                }
            },
        }
        if k == n_chars {
            from = n_chars + 1;
        } else {
            from = k + 1;
        }
    }

    let m = rows.len();
    let mut a: usize = 0;
    while a < m
        invariant
            a <= m == rows@.len(),
            table_ok(text@, 0, n as int),
            table_rows(text@, 0, n as int) == rows_view(rows@),
            forall|t: int| 0 <= t < rows@.len() ==> (#[trigger] rows@[t]).0@.len() == n,
            forall|x: int, y: int|
                0 <= x < y < rows@.len() && x < a as int ==> rows@[x].0@ != rows@[y].0@,
        decreases m - a,
    {
        let mut b = a + 1;
        while b < m
            invariant
                a < b <= m == rows@.len(),
                table_ok(text@, 0, n as int),
                table_rows(text@, 0, n as int) == rows_view(rows@),
                forall|y: int| (a as int) < y < b as int ==> rows@[a as int].0@ != rows@[y].0@,
            decreases m - b,
        {
            if char_vecs_equal(&rows[a].0, &rows[b].0) {
                proof {
                    let rv = rows_view(rows@);
                    assert(rv[a as int].0 == rows@[a as int].0@);
                    assert(rv[b as int].0 == rows@[b as int].0@);
                    assert(!distinct_grams(table_rows(text@, 0, n as int)));
                }
                return Err(TableError::Duplicate);
            }
            b = b + 1;
        }
        a = a + 1;
    }
    proof {
        assert forall|x: int, y: int|
            0 <= x < y < table_rows(text@, 0, n as int).len() implies table_rows(
            text@,
            0,
            n as int,
        )[x].0 != table_rows(text@, 0, n as int)[y].0 by {
            let rv = rows_view(rows@);
            assert(rv[x].0 == rows@[x].0@);
            assert(rv[y].0 == rows@[y].0@);
        };
        assert forall|t: int|
            0 <= t < table_rows(text@, 0, n as int).len() implies (#[trigger] rows@[t]).0@
            == table_rows(text@, 0, n as int)[t].0 && rows@[t].1 as int == table_rows(
            text@,
            0,
            n as int,
        )[t].1 by {
            let rv = rows_view(rows@);
            assert(rv[t].0 == rows@[t].0@ && rv[t].1 == rows@[t].1 as int);
        };
    }
    Ok(rows)
}

/// A set of known words, each a run of characters.
#[derive(Debug, Clone)]
pub struct Dictionary(pub Vec<Vec<char>>);

/// Whether some entry of `dict` reads `w`.
pub open spec fn in_dict(dict: Seq<Vec<char>>, w: Seq<char>) -> bool {
    exists|k: int| 0 <= k < dict.len() && dict[k]@ == w
}

/// Whether `text[i..j]` is a dictionary word of at most eleven characters.
pub open spec fn word_span(text: Seq<char>, dict: Seq<Vec<char>>, i: int, j: int) -> bool {
    &&& 0 <= i < j <= text.len()
    &&& j - i <= 11
    &&& in_dict(dict, text.subrange(i, j))
}

/// Whether some entry of `dict` reads `w`.
fn dict_contains(dict: &Vec<Vec<char>>, w: &Vec<char>) -> (r: bool)
    ensures
        r == in_dict(dict@, w@),
{
    let len = dict.len();
    let mut k: usize = 0;
    while k < len
        invariant
            k <= len == dict@.len(),
            forall|t: int| 0 <= t < k ==> dict@[t]@ != w@,
        decreases len - k,
    {
        if char_vecs_equal(&dict[k], w) {
            return true;
        }
        k = k + 1;
    }
    false
}

/// Every span of `text`, up to eleven characters wide, that reads as a
/// dictionary word: the pairs `(start, end)` of those spans, each exactly
/// once.
pub fn find_words(text: &Vec<char>, dict: &Vec<Vec<char>>) -> (r: Vec<(usize, usize)>)
    ensures
        forall|p: (usize, usize)|
            r@.contains(p) <==> word_span(text@, dict@, p.0 as int, p.1 as int),
        forall|a: int, b: int| 0 <= a < b < r@.len() ==> r@[a] != r@[b],
        forall|a: int, b: int|
            0 <= a < b < r@.len() ==> r@[a].0 < r@[b].0 || (r@[a].0 == r@[b].0 && r@[a].1 < r@[b].1),
{
    let mut r: Vec<(usize, usize)> = Vec::new();
    let len = text.len();
    let mut i: usize = 0;
    while i < len
        invariant
            i <= len == text@.len(),
            forall|p: (usize, usize)|
                r@.contains(p) <==> (word_span(text@, dict@, p.0 as int, p.1 as int) && (
                p.0 as int) < i),
            forall|a: int, b: int| 0 <= a < b < r@.len() ==> r@[a] != r@[b],
            forall|a: int, b: int|
                0 <= a < b < r@.len() ==> r@[a].0 < r@[b].0 || (r@[a].0 == r@[b].0 && r@[a].1 < r@[b].1),
            forall|a: int|
                0 <= a < r@.len() ==> ((#[trigger] r@[a]).0 as int) < i,
        decreases len - i,
    {
        let limit = if len - i > 11 {
            i + 11
        } else {
            len
        };
        let mut word: Vec<char> = Vec::new();
        let mut j: usize = i;
        while j < limit
            invariant
                i <= j <= limit <= len == text@.len(),
                limit - i <= 11,
                i + 11 < len ==> limit == i + 11,
                i + 11 >= len ==> limit == len,
                word@ == text@.subrange(i as int, j as int),
                forall|p: (usize, usize)|
                    r@.contains(p) <==> (word_span(text@, dict@, p.0 as int, p.1 as int) && ((
                    p.0 as int) < i || (p.0 == i && (p.1 as int) <= j))),
                forall|a: int, b: int| 0 <= a < b < r@.len() ==> r@[a] != r@[b],
                forall|a: int, b: int|
                    0 <= a < b < r@.len() ==> r@[a].0 < r@[b].0 || (r@[a].0 == r@[b].0 && r@[a].1 < r@[b].1),
                forall|a: int|
                    0 <= a < r@.len() ==> ((#[trigger] r@[a]).0 as int) < i || (r@[a].0 == i
                        && (r@[a].1 as int) <= j),
            decreases limit - j,
        {
            word.push(text[j]);
            proof {
                assert(word@ =~= text@.subrange(i as int, j + 1));
            }
            j = j + 1;
            let ghost prev = r@;
            let hit = dict_contains(dict, &word);
            if hit {
                r.push((i, j));
            }
            proof {
                let pair = (i, j);
                assert(in_dict(dict@, text@.subrange(i as int, j as int)) == hit);
                assert forall|p: (usize, usize)|
                    r@.contains(p) <==> (word_span(text@, dict@, p.0 as int, p.1 as int) && ((
                    p.0 as int) < i || (p.0 == i && (p.1 as int) <= j))) by {
                    if r@.contains(p) {
                        let idx = choose|idx: int| 0 <= idx < r@.len() && r@[idx] == p;
                        if idx < prev.len() {
                            assert(prev[idx] == p);
                            assert(prev.contains(p));
                        } else {
                            assert(hit && p == pair);
                            assert(word_span(text@, dict@, i as int, j as int));
                        }
                    }
                    if word_span(text@, dict@, p.0 as int, p.1 as int) && ((p.0 as int) < i || (
                    p.0 == i && (p.1 as int) <= j)) {
                        if (p.0 as int) < i || (p.1 as int) <= j - 1 {
                            assert(prev.contains(p));
                            let idx = choose|idx: int| 0 <= idx < prev.len() && prev[idx] == p;
                            assert(r@[idx] == p);
                        } else {
                            assert(p.0 == i && (p.1 as int) == j);
                            assert(p == pair);
                            assert(hit);
                            assert(r@[prev.len() as int] == pair);
                        }
                    }
                };
                assert forall|a: int, b: int|
                    0 <= a < b < r@.len() implies (r@[a].0 < r@[b].0 || (r@[a].0 == r@[b].0 && r@[a].1 < r@[b].1)) by {
                    if b < prev.len() {
                        assert(r@[a] == prev[a] && r@[b] == prev[b]);
                    } else {
                        assert(r@[b] == pair);
                        assert(r@[a] == prev[a]);
                        assert((prev[a].0 as int) < i || (prev[a].0 == i && (prev[a].1 as int) <= j
                            - 1));
                    }
                };
            }
        }
        proof {
            assert forall|p: (usize, usize)|
                r@.contains(p) <==> (word_span(text@, dict@, p.0 as int, p.1 as int) && (
                p.0 as int) < i + 1) by {
                if word_span(text@, dict@, p.0 as int, p.1 as int) && p.0 == i {
                    assert((p.1 as int) <= i + 11 && (p.1 as int) <= text@.len());
                    assert((p.1 as int) <= limit);
                }
            };
        }
        i = i + 1;
    }
    r
}

/// Whether two character vectors read the same.
fn char_vecs_equal(a: &Vec<char>, b: &Vec<char>) -> (r: bool)
    ensures
        r == (a@ == b@),
{
    if a.len() != b.len() {
        proof {
            assert(a@.len() != b@.len());
        }
        return false;
    }
    let len = a.len();
    let mut i: usize = 0;
    while i < len
        invariant
            i <= len == a@.len() == b@.len(),
            forall|t: int| 0 <= t < i ==> a@[t] == b@[t],
        decreases len - i,
    {
        if a[i] != b[i] {
            return false;
        }
        i = i + 1;
    }
    proof {
        assert(a@ =~= b@);
    }
    true
}

} // verus!
