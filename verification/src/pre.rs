//! The text preprocessor: normalize characters and keep only those of the
//! target alphabet.

use vstd::prelude::*;
use crate::encoding::push_char;

verus! {

/// The image of `c` under the normalize table: the replacement of the first
/// pair whose left side is `c`, or `c` itself when no pair matches.
pub open spec fn normalize_char(map: Seq<(char, char)>, c: char) -> char
    decreases map.len(),
{
    if map.len() == 0 {
        c
    } else if map[0].0 == c {
        map[0].1
    } else {
        normalize_char(map.drop_first(), c)
    }
}

/// The preprocessed form of `s`: each character normalized, and only those
/// in the emit set kept, in order.
pub open spec fn process_spec(norm: Seq<(char, char)>, emit: Seq<char>, s: Seq<char>) -> Seq<char>
    decreases s.len(),
{
    if s.len() == 0 {
        Seq::empty()
    } else {
        let rest = process_spec(norm, emit, s.drop_last());
        let c = normalize_char(norm, s.last());
        if emit.contains(c) {
            rest.push(c)
        } else {
            rest
        }
    }
}

/// A preprocessor: a character-to-character normalize table and the set of
/// characters that survive.
pub struct Pre {
    pub normalize: Vec<(char, char)>,
    pub emit: Vec<char>,
}

impl Pre {
    /// An empty preprocessor: it normalizes nothing and emits nothing.
    pub fn new() -> (r: Self)
        ensures
            r.normalize@.len() == 0,
            r.emit@.len() == 0,
    {
        Self { normalize: Vec::new(), emit: Vec::new() }
    }

    /// A preprocessor from an emit set and a normalize table.
    pub fn from_emitter_and_normalizer(emit: Vec<char>, normalize: Vec<(char, char)>) -> (r: Self)
        ensures
            r.normalize@ == normalize@,
            r.emit@ == emit@,
    {
        Self { normalize, emit }
    }

    /// The normalized image of one character.
    fn normalized(&self, c: char) -> (r: char)
        ensures
            r == normalize_char(self.normalize@, c),
    {
        let n = self.normalize.len();
        let mut i: usize = 0;
        proof {
            assert(self.normalize@.skip(0) =~= self.normalize@);
        }
        while i < n
            invariant
                i <= n == self.normalize@.len(),
                normalize_char(self.normalize@, c) == normalize_char(
                    self.normalize@.skip(i as int),
                    c,
                ),
            decreases n - i,
        {
            let pair = self.normalize[i];
            proof {
                assert(self.normalize@.skip(i as int)[0] == self.normalize@[i as int]);
                assert(self.normalize@.skip(i as int).drop_first() =~= self.normalize@.skip(i + 1));
            }
            if pair.0 == c {
                return pair.1;
            }
            i = i + 1;
        }
        proof {
            assert(self.normalize@.skip(n as int).len() == 0);
        }
        c
    }

    /// Whether the emit set holds `c`.
    fn emits(&self, c: char) -> (r: bool)
        ensures
            r == self.emit@.contains(c),
    {
        let n = self.emit.len();
        let mut i: usize = 0;
        while i < n
            invariant
                i <= n == self.emit@.len(),
                forall|k: int| 0 <= k < i ==> self.emit@[k] != c,
            decreases n - i,
        {
            if self.emit[i] == c {
                return true;
            }
            i = i + 1;
        }
        proof {
            if self.emit@.contains(c) {
                let k = choose|k: int| 0 <= k < self.emit@.len() && self.emit@[k] == c;
                assert(self.emit@[k] != c);
            }
        }
        false
    }

    /// Normalize every character of `input` and keep those the emit set
    /// holds, in order.
    pub fn process(&self, input: &str) -> (r: String)
        ensures
            r@ == process_spec(self.normalize@, self.emit@, input@),
    {
        let n = input.unicode_len();
        let mut r = String::new();
        let mut i: usize = 0;
        while i < n
            invariant
                i <= n == input@.len(),
                r@ == process_spec(self.normalize@, self.emit@, input@.subrange(0, i as int)),
            decreases n - i,
        {
            let c = self.normalized(input.get_char(i));
            proof {
                assert(input@.subrange(0, i + 1).drop_last() =~= input@.subrange(0, i as int));
                assert(input@.subrange(0, i + 1).last() == input@[i as int]);
            }
            if self.emits(c) {
                push_char(&mut r, c);
            }
            i = i + 1;
        }
        proof {
            assert(input@.subrange(0, n as int) =~= input@);
        }
        r
    }
}

/// Fill a preprocessor with the Latin rules: each lowercase letter
/// normalizes to its uppercase form, and the 26 uppercase letters are
/// emitted.
pub fn latin(pre: &mut Pre)
    ensures
        final(pre).normalize@.len() == old(pre).normalize@.len() + 26,
        final(pre).emit@.len() == old(pre).emit@.len() + 26,
        forall|i: int|
            0 <= i < old(pre).normalize@.len() ==> final(pre).normalize@[i] == old(
                pre,
            ).normalize@[i],
        forall|i: int| 0 <= i < old(pre).emit@.len() ==> final(pre).emit@[i] == old(pre).emit@[i],
        forall|i: int|
            0 <= i < 26 ==> #[trigger] final(pre).normalize@[old(pre).normalize@.len() + i] == ((((
            97 + i) as u8) as char), (((65 + i) as u8) as char)),
        forall|i: int|
            0 <= i < 26 ==> #[trigger] final(pre).emit@[old(pre).emit@.len() + i] == (((65
                + i) as u8) as char),
{
    let mut i: u8 = 0;
    while i < 26
        invariant
            i <= 26,
            pre.normalize@.len() == old(pre).normalize@.len() + i,
            pre.emit@.len() == old(pre).emit@.len() + i,
            forall|k: int|
                0 <= k < old(pre).normalize@.len() ==> pre.normalize@[k] == old(pre).normalize@[k],
            forall|k: int| 0 <= k < old(pre).emit@.len() ==> pre.emit@[k] == old(pre).emit@[k],
            forall|k: int|
                0 <= k < i ==> #[trigger] pre.normalize@[old(pre).normalize@.len() + k] == ((((
                97 + k) as u8) as char), (((65 + k) as u8) as char)),
            forall|k: int|
                0 <= k < i ==> #[trigger] pre.emit@[old(pre).emit@.len() + k] == (((65
                    + k) as u8) as char),
        decreases 26 - i,
    {
        let lower = (97 + i) as char;
        let upper = (65 + i) as char;
        pre.normalize.push((lower, upper));
        pre.emit.push(upper);
        i = i + 1;
    }
}

} // verus!
