use prime_sieve::sieve::Sieve;

#[test]
fn zero_length_range_has_no_holes() {
    let s = Sieve::new(8..8);
    let mut out: Vec<usize> = Vec::new();
    s.read_holes(&mut out);
    assert_eq!(out, Vec::<usize>::new());
}

#[test]
fn single_divisor_covering_range_leaves_one_hole() {
    // the range [2, 4) has length 2; striking with 2 covers 2, leaving 3
    let mut s = Sieve::new(2..4);
    s.strike_out(2);
    let mut out: Vec<usize> = Vec::new();
    s.read_holes(&mut out);
    assert_eq!(out, vec![3]);
}

#[test]
fn divisor_of_range_length_strikes_one_position() {
    // [6, 9) holds exactly one multiple of 3
    let mut s = Sieve::new(6..9);
    s.strike_out(3);
    let mut out: Vec<usize> = Vec::new();
    s.read_holes(&mut out);
    assert_eq!(out, vec![7, 8]);
}

#[test]
fn striking_known_primes_leaves_exactly_the_primes() {
    let mut s = Sieve::new(10..30);
    s.strike_out(2);
    s.strike_out(3);
    s.strike_out(5);
    let mut out: Vec<usize> = Vec::new();
    s.read_holes(&mut out);
    assert_eq!(out, vec![11, 13, 17, 19, 23, 29]);
}

#[test]
fn divisor_without_multiple_in_range_is_a_no_op() {
    let mut s = Sieve::new(14..16);
    s.strike_out(11);
    let mut out: Vec<usize> = Vec::new();
    s.read_holes(&mut out);
    assert_eq!(out, vec![14, 15]);
}

#[test]
fn read_holes_appends_after_existing_entries() {
    let s = Sieve::new(10..12);
    let mut out: Vec<usize> = vec![99];
    s.read_holes(&mut out);
    assert_eq!(out, vec![99, 10, 11]);
}

#[test]
fn strike_out_is_repeatable_before_reading() {
    let mut s = Sieve::new(20..26);
    s.strike_out(2);
    s.strike_out(2);
    s.strike_out(7);
    let mut out: Vec<usize> = Vec::new();
    s.read_holes(&mut out);
    assert_eq!(out, vec![23, 25]);
}
