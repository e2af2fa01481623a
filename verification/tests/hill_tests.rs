use homophonic::encoding::{Encoding, Frequency};
use homophonic::hill::{energy, Climber, Config, CribError, KeyInit, Perturbation};
use homophonic::stats;
use homophonic::MIN_ENERGY;

fn quiet_config(cycle: usize) -> Config {
    Config {
        cycle,
        derive_cycle: 1000000,
        mutate_cycle: 1000000,
        init_key: KeyInit::Paired,
        derive_key: Perturbation::Keep,
        mutate_key: Perturbation::Keep,
        report: false,
    }
}

#[test]
fn climber_new_sizes_everything() {
    let cipher_enc = Encoding::from_alphabet_string("ABCD");
    let output_enc = Encoding::from_alphabet_string("AB");
    let buf = cipher_enc.encode_str("ABCD");
    let climber = Climber::new(buf, cipher_enc, output_enc, 500000);
    // four cipher symbols at ratio 0.5 grow to six
    assert_eq!(climber.cipher_alphabet.len(), 6);
    assert_eq!(climber.output_alphabet.len(), 2);
    assert_eq!(climber.run_key.len(), 6);
    assert_eq!(climber.top_key.len(), 6);
    assert_eq!(climber.fix_key.len(), 6);
    assert_eq!(climber.run_energy, MIN_ENERGY);
    assert_eq!(climber.top_energy, MIN_ENERGY);
    assert_eq!(climber.crib.loose.len(), 6);
    assert!(climber.crib.fixed.is_empty());
}

#[test]
fn crib_char_pins_and_rejects_conflicts() {
    let cipher_enc = Encoding::from_alphabet_string("ABCDEFGH");
    let output_enc = Encoding::from_alphabet_string("ABCDEFGH");
    let buf = cipher_enc.encode_str("ABCDABCD");
    let mut climber = Climber::new(buf, cipher_enc, output_enc, 0);
    assert_eq!(climber.crib_char(3, 7), Ok(()));
    assert_eq!(climber.fix_key.get(3), 7);
    assert!(climber.crib.fixed.contains(&3));
    assert!(!climber.crib.loose.contains(&3));
    // pinning the same image again changes nothing
    assert_eq!(climber.crib_char(3, 7), Ok(()));
    // a second image for the same symbol is rejected
    assert_eq!(climber.crib_char(3, 6), Err(CribError::Conflict));
    assert_eq!(climber.fix_key.get(3), 7);
}

#[test]
fn crib_char_at_rejects_positions_past_the_buffer() {
    let cipher_enc = Encoding::from_alphabet_string("AB");
    let output_enc = Encoding::from_alphabet_string("AB");
    let buf = cipher_enc.encode_str("AB");
    let mut climber = Climber::new(buf, cipher_enc, output_enc, 0);
    assert_eq!(climber.crib_char_at(5, 0), Err(CribError::Misaligned));
    assert_eq!(climber.crib_char_at(1, 0), Ok(()));
    assert_eq!(climber.fix_key.get(1), 0);
}

#[test]
fn crib_str_pins_known_plaintext() {
    let cipher_enc = Encoding::from_alphabet_string("ABCD");
    let output_enc = Encoding::from_alphabet_string("WXYZ");
    let buf = cipher_enc.encode_str("ABCD");
    let mut climber = Climber::new(buf, cipher_enc, output_enc, 0);
    assert_eq!(climber.crib_str(1, "XY"), Ok(()));
    // buffer position 1 holds cipher symbol 1, pinned to plaintext X = 1
    assert_eq!(climber.fix_key.get(1), 1);
    assert_eq!(climber.fix_key.get(2), 2);
    assert!(climber.crib.fixed.contains(&1));
    assert!(climber.crib.fixed.contains(&2));
}

#[test]
fn crib_str_rejects_misaligned_cribs_whole() {
    let cipher_enc = Encoding::from_alphabet_string("AB");
    let output_enc = Encoding::from_alphabet_string("AB");
    let buf = cipher_enc.encode_str("AB");
    let mut climber = Climber::new(buf, cipher_enc, output_enc, 0);
    assert_eq!(climber.crib_str(1, "AB"), Err(CribError::Misaligned));
    assert!(climber.crib.fixed.is_empty());
}

#[test]
fn crib_str_rejects_contradictory_cribs_whole() {
    // the buffer repeats one cipher symbol; a crib demanding two images
    // for it is rejected and nothing is pinned
    let cipher_enc = Encoding::from_alphabet_string("AB");
    let output_enc = Encoding::from_alphabet_string("AB");
    let buf = cipher_enc.encode_str("AA");
    let mut climber = Climber::new(buf, cipher_enc, output_enc, 0);
    assert_eq!(climber.crib_str(0, "AB"), Err(CribError::Conflict));
    assert!(climber.crib.fixed.is_empty());
}

#[test]
fn energy_scales_the_score_by_length() {
    let mut f = stats::Frequency::new(1, 100000);
    f.insert(vec!['A'], 2000000);
    let e = Encoding::from_alphabet_string("AB");
    let model = Frequency::new(&f, &e);
    // "AABB" scores 2.0 + 2.0 + 0.1 + 0.1 = 4.2; energy = 4.2e6 * 5000 / 4
    let buf = e.encode_str("AABB");
    assert_eq!(energy(&model, &buf), 4200000i64 * 5000 / 4);
}

#[test]
fn crib_fix_immobilizes_a_position_through_a_climb() {
    // with cipher symbol 3 pinned to plaintext symbol 7, any number of
    // cycles leaves run_key[3] = 7
    let cipher_enc = Encoding::from_alphabet_string("ABCDEFGH");
    let output_enc = Encoding::from_alphabet_string("ABCDEFGH");
    let buf = cipher_enc.encode_str("HGFEDCBAABCDDD");
    let mut climber = Climber::new(buf, cipher_enc, output_enc.clone(), 0);
    assert_eq!(climber.crib_char(3, 7), Ok(()));
    let mut f = stats::Frequency::new(1, 100000);
    f.insert(vec!['A'], 900000);
    f.insert(vec!['B'], 700000);
    f.insert(vec!['C'], 500000);
    let model = Frequency::new(&f, &output_enc);
    climber.climb(&quiet_config(5), &model);
    assert_eq!(climber.run_key.get(3), 7);
    climber.climb(&quiet_config(3), &model);
    assert_eq!(climber.run_key.get(3), 7);
}

#[test]
fn top_energy_never_falls_between_climbs() {
    let cipher_enc = Encoding::from_alphabet_string("ABCD");
    let output_enc = Encoding::from_alphabet_string("ABCD");
    let buf = cipher_enc.encode_str("ABCDDCBA");
    let mut climber = Climber::new(buf, cipher_enc, output_enc.clone(), 0);
    let mut f = stats::Frequency::new(1, 100000);
    f.insert(vec!['A'], 1500000);
    let model = Frequency::new(&f, &output_enc);
    climber.climb(&quiet_config(2), &model);
    let first = climber.top_energy;
    climber.climb(&quiet_config(2), &model);
    assert!(climber.top_energy >= first);
}

#[test]
fn a_fresh_climb_always_scores_something() {
    // one sweep over at least one pair always accepts a first proposal,
    // so the top energy leaves the sentinel
    let cipher_enc = Encoding::from_alphabet_string("ABC");
    let output_enc = Encoding::from_alphabet_string("ABC");
    let buf = cipher_enc.encode_str("ABCCBA");
    let mut climber = Climber::new(buf, cipher_enc, output_enc.clone(), 0);
    let f = stats::Frequency::new(1, 100000);
    let model = Frequency::new(&f, &output_enc);
    climber.climb(&quiet_config(1), &model);
    assert!(climber.top_energy > MIN_ENERGY);
}

#[test]
fn toy_caesar_cipher_is_recovered() {
    // a two-letter Caesar cipher with a unigram model that prefers the
    // true plaintext: the top key must decode the ciphertext exactly
    let output_enc = Encoding::from_alphabet_string("AB");
    let cipher_enc = Encoding::from_alphabet_string("AB");
    // plaintext "AAAB", shifted by one: "BBBA"
    let buf = cipher_enc.encode_str("BBBA");
    let mut f = stats::Frequency::new(1, 100000);
    f.insert(vec!['A'], 2000000);
    f.insert(vec!['B'], 500000);
    let model = Frequency::new(&f, &output_enc);
    let mut climber = Climber::new(buf, cipher_enc, output_enc.clone(), 0);
    climber.climb(&quiet_config(100), &model);
    let mut out = vec![0u8; 4];
    climber.top_key.decode(&climber.cipher_buf, &mut out);
    assert_eq!(output_enc.decode_str(&out), "AAAB");
}
