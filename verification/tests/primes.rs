use prime_sieve::primes::Primes;

fn first_n(n: usize) -> Vec<usize> {
    let mut generator = Primes::new();
    let mut it = generator.iter();
    let mut out: Vec<usize> = Vec::new();
    while out.len() < n {
        out.push(it.next(&mut generator).unwrap());
    }
    out
}

#[test]
fn high_prime() {
    // 104729 is the 10000th prime according to wolfram alpha
    let mut generator = Primes::new();
    let mut it = generator.iter();
    let mut last: usize = 0;
    let mut n: usize = 0;
    while n < 10000 {
        last = it.next(&mut generator).unwrap();
        n += 1;
    }
    assert_eq!(last, 104729);
}

#[test]
fn first_four_need_no_extension() {
    let mut generator = Primes::new();
    let mut it = generator.iter();
    let mut got: Vec<usize> = Vec::new();
    let mut n: usize = 0;
    while n < 4 {
        got.push(it.next(&mut generator).unwrap());
        n += 1;
    }
    assert_eq!(got, vec![2, 3, 5, 7]);
    // still only the seed range is classified: no extension step ran
    assert_eq!(generator.highest_checked(), 7);
}

#[test]
fn fifth_prime_triggers_exactly_one_extension() {
    let mut generator = Primes::new();
    let mut it = generator.iter();
    let mut got: Vec<usize> = Vec::new();
    let mut n: usize = 0;
    while n < 5 {
        got.push(it.next(&mut generator).unwrap());
        n += 1;
    }
    assert_eq!(got, vec![2, 3, 5, 7, 11]);
    // one extension sieved [8, min(7 + 1024, 7 * 7)) = [8, 49)
    assert_eq!(generator.highest_checked(), 48);
}

#[test]
fn nth_prime_samples() {
    let primes = first_n(10);
    assert_eq!(primes[0], 2);
    assert_eq!(primes[3], 7);
    assert_eq!(primes[9], 29);
}

#[test]
fn nth_prime_across_many_extensions() {
    let primes = first_n(1000);
    assert_eq!(primes[99], 541);
    assert_eq!(primes[999], 7919);
}

#[test]
fn strictly_increasing() {
    let primes = first_n(200);
    let mut i: usize = 1;
    while i < primes.len() {
        assert!(primes[i - 1] < primes[i]);
        i += 1;
    }
}

#[test]
fn no_earlier_prime_divides_a_later_one() {
    let primes = first_n(25);
    let mut i: usize = 0;
    while i < primes.len() {
        let mut j: usize = 0;
        while j < i {
            assert_ne!(primes[i] % primes[j], 0);
            j += 1;
        }
        i += 1;
    }
}

#[test]
fn two_cursors_see_the_same_values() {
    let mut generator = Primes::new();
    let mut first_pass: Vec<usize> = Vec::new();
    {
        let mut it = generator.iter();
        let mut n: usize = 0;
        while n < 12 {
            first_pass.push(it.next(&mut generator).unwrap());
            n += 1;
        }
    }
    // the list is long enough now: a second, independent cursor reads the
    // same positions without changing the instance
    let before = generator.highest_checked();
    let mut second_pass: Vec<usize> = Vec::new();
    {
        let mut it = generator.iter();
        let mut n: usize = 0;
        while n < 12 {
            second_pass.push(it.next(&mut generator).unwrap());
            n += 1;
        }
    }
    assert_eq!(first_pass, second_pass);
    assert_eq!(generator.highest_checked(), before);
}
