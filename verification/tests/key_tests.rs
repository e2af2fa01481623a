use homophonic::encoding::{Alphabet, Encoding};
use homophonic::key::{Crib, Key};
use homophonic::util::take_random_element_from_set;

#[test]
fn crib_starts_all_loose() {
    let crib = Crib::new(4);
    assert_eq!(crib.loose, vec![0, 1, 2, 3]);
    assert!(crib.fixed.is_empty());
}

#[test]
fn crib_fix_partitions_positions() {
    // after any sequence of fixes, fixed and loose together cover [0, 4)
    // and share nothing
    let mut crib = Crib::new(4);
    crib.fix(2);
    assert_eq!(crib.fixed, vec![2]);
    assert_eq!(crib.loose, vec![0, 1, 3]);
    crib.fix(0);
    assert_eq!(crib.fixed, vec![2, 0]);
    assert_eq!(crib.loose, vec![1, 3]);
    for p in 0..4 {
        let in_fixed = crib.fixed.contains(&p);
        let in_loose = crib.loose.contains(&p);
        assert!(in_fixed != in_loose);
    }
}

#[test]
fn crib_fix_is_idempotent() {
    let mut crib = Crib::new(3);
    crib.fix(1);
    crib.fix(1);
    assert_eq!(crib.fixed, vec![1]);
    assert_eq!(crib.loose, vec![0, 2]);
}

#[test]
fn crib_find_loose_index_reports_first() {
    let crib = Crib::new(3);
    assert_eq!(crib.find_loose_index(2), Some(2));
    assert_eq!(crib.find_loose_index(7), None);
}

#[test]
fn crib_sample_draws_loose_positions() {
    let mut crib = Crib::new(5);
    crib.fix(0);
    for _ in 0..50 {
        let p = crib.sample();
        assert!(crib.loose.contains(&p));
        assert!(p != 0);
    }
}

#[test]
fn identity_key_decodes_identically() {
    // plaintext alphabet "AB", cipher alphabet "AB", key = [0, 1]:
    // "ABAB" decodes to "ABAB"; after swap(0, 1) it reads "BABA"
    let e = Encoding::from_alphabet_string("AB");
    let cipher = e.encode_str("ABAB");
    let mut key = Key::new(2);
    key.set(0, 0);
    key.set(1, 1);
    let mut out = vec![0u8; 4];
    key.decode(&cipher, &mut out);
    assert_eq!(e.decode_str(&out), "ABAB");
    key.swap(0, 1);
    key.decode(&cipher, &mut out);
    assert_eq!(e.decode_str(&out), "BABA");
}

#[test]
fn key_copy_overwrites() {
    let mut a = Key::new(3);
    let mut b = Key::new(3);
    b.set(0, 2);
    b.set(1, 1);
    b.set(2, 0);
    a.copy(&b);
    assert_eq!(a.get(0), 2);
    assert_eq!(a.get(1), 1);
    assert_eq!(a.get(2), 0);
}

#[test]
fn key_splice_takes_values_from_either_side() {
    let mut a = Key::new(4);
    let mut b = Key::new(4);
    for i in 0..4 {
        a.set(i, 1);
        b.set(i, 2);
    }
    a.splice(&b);
    for i in 0..4 {
        let v = a.get(i);
        assert!(v == 1 || v == 2);
    }
}

#[test]
fn key_random_putc_touches_only_the_tail() {
    let alphabet = Alphabet::new(4);
    let mut key = Key::new(6);
    for i in 0..6 {
        key.set(i, 3);
    }
    key.random_putc(&alphabet);
    assert_eq!(key.get(0), 3);
    assert_eq!(key.get(1), 3);
    assert_eq!(key.get(2), 3);
    for i in 3..6 {
        assert!(key.get(i) < 4);
    }
}

#[test]
fn key_random_swap_permutes_values() {
    let crib = Crib::new(4);
    let mut key = Key::new(4);
    for i in 0..4 {
        key.set(i, i as u8);
    }
    key.random_swap(&crib);
    let mut seen = vec![false; 4];
    for i in 0..4 {
        seen[key.get(i) as usize] = true;
    }
    assert!(seen.iter().all(|s| *s));
}

#[test]
fn key_random_is_a_bijection_for_equal_alphabets() {
    let a = Alphabet::new(5);
    for _ in 0..20 {
        let key = Key::random(&a, &a);
        assert_eq!(key.len(), 5);
        let mut seen = vec![false; 5];
        for i in 0..5 {
            let v = key.get(i);
            assert!(v < 5);
            assert!(!seen[v as usize]);
            seen[v as usize] = true;
        }
    }
}

#[test]
fn key_random_values_stay_in_plaintext_range() {
    let cipher = Alphabet::new(8);
    let output = Alphabet::new(3);
    for _ in 0..20 {
        let key = Key::random(&cipher, &output);
        assert_eq!(key.len(), 8);
        for i in 0..8 {
            assert!(key.get(i) < 3);
        }
    }
}

#[test]
fn random_distribution_fills_every_position() {
    // with every frequency positive the sweep assigns every position
    let frq = vec![500000u64, 500000];
    for _ in 0..10 {
        let key = Key::random_distribution(6, &frq);
        assert_eq!(key.len(), 6);
        for i in 0..6 {
            assert!(key.get(i) < 2);
        }
    }
}

#[test]
fn take_random_element_shrinks_the_pool() {
    let mut pool = vec![10u8, 20, 30];
    let taken = take_random_element_from_set(&mut pool);
    assert!(taken == 10 || taken == 20 || taken == 30);
    assert_eq!(pool.len(), 2);
    assert!(!pool.contains(&taken));
}
