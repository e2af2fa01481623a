use homophonic::stats::{
    find_words, parse_count_line, parse_count_table, Count, Dictionary, NGrams, TableError,
};

#[test]
fn ngrams_cover_every_window_in_order() {
    // a buffer of length 5 and width 2 yields exactly 4 windows
    let buf = vec![1u8, 2, 3, 4, 5];
    let mut grams = NGrams::new(&buf, 2);
    assert_eq!(grams.next(), Some(vec![1u8, 2]));
    assert_eq!(grams.next(), Some(vec![2u8, 3]));
    assert_eq!(grams.next(), Some(vec![3u8, 4]));
    assert_eq!(grams.next(), Some(vec![4u8, 5]));
    assert_eq!(grams.next(), None);
    assert_eq!(grams.next(), None);
}

#[test]
fn ngrams_on_short_buffer_yield_nothing() {
    let buf = vec![1u8, 2];
    let mut grams = NGrams::new(&buf, 3);
    assert_eq!(grams.next(), None);
}

#[test]
fn ngrams_full_width_yields_one_window() {
    let buf = vec![7u8, 8, 9];
    let mut grams = NGrams::new(&buf, 3);
    assert_eq!(grams.next(), Some(vec![7u8, 8, 9]));
    assert_eq!(grams.next(), None);
}

#[test]
fn count_records_every_window() {
    let mut count = Count::new(2);
    count.add("ABAB");
    assert_eq!(count.count_of(&vec!['A', 'B']), 2);
    assert_eq!(count.count_of(&vec!['B', 'A']), 1);
    assert_eq!(count.count_of(&vec!['A', 'A']), 0);
    assert_eq!(count.total(), 3);
    assert_eq!(count.len(), 2);
}

#[test]
fn count_accumulates_over_calls() {
    let mut count = Count::new(1);
    count.add("AAB");
    count.add("BA");
    assert_eq!(count.count_of(&vec!['A']), 3);
    assert_eq!(count.count_of(&vec!['B']), 2);
    assert_eq!(count.total(), 5);
}

#[test]
fn count_ignores_short_input() {
    let mut count = Count::new(3);
    count.add("AB");
    assert_eq!(count.total(), 0);
    assert_eq!(count.len(), 0);
}

#[test]
fn find_words_reports_every_span() {
    let text = vec!['A', 'B', 'A', 'B'];
    let dict = vec![vec!['A', 'B'], vec!['B', 'A']];
    let words = find_words(&text, &dict);
    assert_eq!(words.len(), 3);
    assert!(words.contains(&(0, 2)));
    assert!(words.contains(&(1, 3)));
    assert!(words.contains(&(2, 4)));
}

#[test]
fn find_words_respects_dictionary() {
    let text = vec!['A', 'A'];
    let dict = vec![vec!['B']];
    let words = find_words(&text, &dict);
    assert!(words.is_empty());
}

#[test]
fn parse_count_table_reads_rows_in_order() {
    let rows = parse_count_table("AB 2\nBA 10\n", 2).unwrap();
    assert_eq!(rows.len(), 2);
    assert_eq!(rows[0], (vec!['A', 'B'], 2));
    assert_eq!(rows[1], (vec!['B', 'A'], 10));
}

#[test]
fn parse_count_table_skips_blank_lines() {
    let rows = parse_count_table("\n  \nAB 2\n\n", 2).unwrap();
    assert_eq!(rows, vec![(vec!['A', 'B'], 2)]);
}

#[test]
fn parse_count_table_handles_surrounding_whitespace() {
    let rows = parse_count_table("  AB\t2 \r\nBA 1", 2).unwrap();
    assert_eq!(rows, vec![(vec!['A', 'B'], 2), (vec!['B', 'A'], 1)]);
}

#[test]
fn parse_count_table_rejects_malformed_lines() {
    // wrong gram width
    assert_eq!(parse_count_table("ABC 2\n", 2), Err(TableError::Malformed));
    // no count
    assert_eq!(parse_count_table("AB\n", 2), Err(TableError::Malformed));
    // count is not a number
    assert_eq!(parse_count_table("AB x\n", 2), Err(TableError::Malformed));
    // a third token
    assert_eq!(parse_count_table("AB 2 3\n", 2), Err(TableError::Malformed));
    // count too large for a u64
    assert_eq!(
        parse_count_table("AB 99999999999999999999\n", 2),
        Err(TableError::Malformed)
    );
}

#[test]
fn parse_count_table_rejects_duplicate_grams() {
    assert_eq!(
        parse_count_table("AB 1\nAB 2\n", 2),
        Err(TableError::Duplicate)
    );
}

#[test]
fn parse_count_line_reads_blank_and_rows() {
    assert_eq!(parse_count_line(&vec![' ', '\t'], 1), Ok(None));
    assert_eq!(
        parse_count_line(&vec!['A', ' ', '4', '2'], 1),
        Ok(Some((vec!['A'], 42)))
    );
    assert_eq!(
        parse_count_line(&vec!['A', 'B'], 1),
        Err(TableError::Malformed)
    );
}

#[test]
fn dictionary_holds_its_words() {
    let dict = Dictionary(vec![vec!['C', 'A', 'T']]);
    assert_eq!(dict.0.len(), 1);
    let words = find_words(&vec!['C', 'A', 'T'], &dict.0);
    assert!(words.contains(&(0, 3)));
}
