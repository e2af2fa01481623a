use homophonic::encoding::{Alphabet, Encoding, Frequency};
use homophonic::stats;

#[test]
fn alphabet_len_and_extend() {
    let mut a = Alphabet::new(26);
    assert_eq!(a.len(), 26);
    a.extend(5);
    assert_eq!(a.len(), 31);
}

#[test]
fn alphabet_char_vec_is_dense() {
    let a = Alphabet::new(4);
    let v = a.char_vec();
    assert_eq!(v, vec![0u8, 1, 2, 3]);
}

#[test]
fn alphabet_char_set_holds_every_symbol() {
    let a = Alphabet::new(4);
    let s = a.char_set();
    assert_eq!(s.len(), 4);
    for c in 0u8..4 {
        assert!(s.contains(&c));
    }
    assert!(!s.contains(&4));
}

#[test]
fn alphabet_random_char_in_range() {
    let a = Alphabet::new(3);
    for _ in 0..50 {
        assert!(a.random_char() < 3);
    }
}

#[test]
fn encoding_round_trip() {
    let e = Encoding::from_alphabet_string("ABC");
    let encoded = e.encode_str("ABCA");
    assert_eq!(encoded, vec![0u8, 1, 2, 0]);
    let decoded = e.decode_str(&encoded);
    assert_eq!(decoded, "ABCA");
}

#[test]
fn encoding_round_trip_each_symbol() {
    let e = Encoding::from_alphabet_string("XYZ");
    for (i, c) in ['X', 'Y', 'Z'].iter().enumerate() {
        assert_eq!(e.encode_char(*c), i);
    }
    let decoded = e.decode_str(&vec![0u8, 1, 2]);
    assert_eq!(decoded, "XYZ");
}

#[test]
fn encoding_char_set_is_the_alphabet() {
    let e = Encoding::from_alphabet_string("AB");
    assert_eq!(e.char_set(), vec!['A', 'B']);
    assert_eq!(e.len(), 2);
}

#[test]
fn homophone_alphabet_grows_by_floor_of_ratio() {
    let e = Encoding::from_alphabet_string("ABCDEFGHIJKLMNOPQRSTUVWXYZ");
    // a ratio of 0.2 grows 26 symbols by floor(5.2) = 5
    let a = e.alphabet(200000);
    assert_eq!(a.len(), 31);
    // a ratio of zero leaves the alphabet as it is
    let b = e.alphabet(0);
    assert_eq!(b.len(), 26);
}

#[test]
fn model_scores_known_grams() {
    // the bigram model {"AB" -> 2.0, "BA" -> 1.0} with floor 0.1
    let mut f = stats::Frequency::new(2, 100000);
    f.insert(vec!['A', 'B'], 2000000);
    f.insert(vec!['B', 'A'], 1000000);
    let e = Encoding::from_alphabet_string("AB");
    let model = Frequency::new(&f, &e);
    assert_eq!(model.n(), 2);
    assert_eq!(model.floor_value(), 100000);
    // "ABAB" -> AB + BA + AB = 2.0 + 1.0 + 2.0 = 5.0
    let buf = e.encode_str("ABAB");
    assert_eq!(model.score(&buf), 5000000);
}

#[test]
fn model_scores_absent_grams_with_floor() {
    let mut f = stats::Frequency::new(2, 100000);
    f.insert(vec!['A', 'B'], 2000000);
    f.insert(vec!['B', 'A'], 1000000);
    let e = Encoding::from_alphabet_string("AB");
    let model = Frequency::new(&f, &e);
    // "AAAA" -> AA + AA + AA, all absent: 0.1 + 0.1 + 0.1 = 0.3
    let buf = e.encode_str("AAAA");
    assert_eq!(model.score(&buf), 300000);
}

#[test]
fn model_scores_short_buffer_zero() {
    let f = stats::Frequency::new(2, 100000);
    let e = Encoding::from_alphabet_string("AB");
    let model = Frequency::new(&f, &e);
    let buf = e.encode_str("A");
    assert_eq!(model.score(&buf), 0);
}
