use passkit::enumerator::nth_password;

#[test]
fn round_trip_width_two() {
    let alpha = ['a', 'b'];
    assert_eq!(nth_password(&alpha, 2, 0), "aa");
    assert_eq!(nth_password(&alpha, 2, 1), "ab");
    assert_eq!(nth_password(&alpha, 2, 2), "ba");
    assert_eq!(nth_password(&alpha, 2, 3), "bb");
}

#[test]
fn single_char_alphabet() {
    let alpha = ['x'];
    assert_eq!(nth_password(&alpha, 3, 0), "xxx");
}

#[test]
fn width_one_walks_the_alphabet() {
    let alpha = ['a', 'b', 'c'];
    assert_eq!(nth_password(&alpha, 1, 0), "a");
    assert_eq!(nth_password(&alpha, 1, 1), "b");
    assert_eq!(nth_password(&alpha, 1, 2), "c");
}

#[test]
fn wider_words_carry_between_positions() {
    let alpha = ['0', '1'];
    assert_eq!(nth_password(&alpha, 3, 5), "101");
    assert_eq!(nth_password(&alpha, 3, 7), "111");
}

#[test]
fn all_indices_distinct_for_small_space() {
    let alpha = ['a', 'b', 'c'];
    let mut seen: Vec<String> = Vec::new();
    for n in 0..27 {
        let p = nth_password(&alpha, 3, n);
        assert!(!seen.contains(&p));
        seen.push(p);
    }
}

#[test]
fn enumeration_is_lexicographic() {
    let alpha = ['a', 'b', 'c'];
    for n in 0..26 {
        let p = nth_password(&alpha, 3, n);
        let q = nth_password(&alpha, 3, n + 1);
        assert!(p < q);
    }
}
