use homophonic::encoding::Alphabet;
use homophonic::pre::{latin, Pre};
use homophonic::util::{
    estimate_key_period_by_index_of_coincidence, index_of_coincidence, uniform_random,
};
use homophonic::SCALE;

#[test]
fn uniform_random_stays_below_one_unit() {
    for _ in 0..100 {
        assert!(uniform_random() < SCALE);
    }
}

#[test]
fn index_of_coincidence_of_balanced_buffer() {
    // counts 2 and 2 over two symbols: 2 * (2 + 2) * 1e6 / (4 * 3)
    let chars = vec![0u8, 0, 1, 1];
    let alphabet = Alphabet::new(2);
    assert_eq!(index_of_coincidence(&chars, &alphabet), 666666);
}

#[test]
fn index_of_coincidence_of_constant_buffer() {
    // a single symbol repeated: 2 * (4 * 3) * 1e6 / (4 * 3) = 2e6
    let chars = vec![1u8, 1, 1, 1];
    let alphabet = Alphabet::new(2);
    assert_eq!(index_of_coincidence(&chars, &alphabet), 2000000);
}

#[test]
fn estimate_finds_a_flat_period_of_one() {
    // a constant buffer stands out already at width one
    let chars = vec![0u8; 8];
    let alphabet = Alphabet::new(2);
    let period = estimate_key_period_by_index_of_coincidence(&chars, &alphabet, 1000000);
    assert_eq!(period, 1);
}

#[test]
fn estimate_gives_up_at_half_the_buffer() {
    // an unreachable threshold runs the search to its cap
    let chars = vec![0u8, 1, 0, 1, 0, 1, 0, 1];
    let alphabet = Alphabet::new(2);
    let period = estimate_key_period_by_index_of_coincidence(&chars, &alphabet, 1000000000);
    assert_eq!(period, 4);
}

#[test]
fn preprocessor_normalizes_and_filters() {
    let mut pre = Pre::new();
    latin(&mut pre);
    assert_eq!(pre.process("Hello, World!"), "HELLOWORLD");
    assert_eq!(pre.process("abc"), "ABC");
    assert_eq!(pre.process("123"), "");
}

#[test]
fn empty_preprocessor_emits_nothing() {
    let pre = Pre::new();
    assert_eq!(pre.process("anything"), "");
}

#[test]
fn preprocessor_keeps_order() {
    let pre = Pre::from_emitter_and_normalizer(vec!['A', 'B'], vec![('a', 'A')]);
    assert_eq!(pre.process("aXBa"), "ABA");
}
