use prime_scan::report::{format_decimal, format_list, format_report};
use prime_scan::Summary;

fn text(bytes: Vec<u8>) -> String {
    String::from_utf8(bytes).unwrap()
}

#[test]
fn decimal_of_small_numbers() {
    assert_eq!(text(format_decimal(0)), "0");
    assert_eq!(text(format_decimal(7)), "7");
    assert_eq!(text(format_decimal(10)), "10");
    assert_eq!(text(format_decimal(1905)), "1905");
}

#[test]
fn decimal_of_the_largest_numbers() {
    assert_eq!(text(format_decimal(u64::MAX as u128)), "18446744073709551615");
    assert_eq!(text(format_decimal(u128::MAX)), "340282366920938463463374607431768211455");
}

#[test]
fn decimal_agrees_with_the_standard_formatting() {
    let mut n: u128 = 1;
    while n < u128::MAX / 7 {
        assert_eq!(text(format_decimal(n)), format!("{}", n));
        assert_eq!(text(format_decimal(n - 1)), format!("{}", n - 1));
        n *= 7;
    }
}

#[test]
fn list_is_separated_by_comma_and_space() {
    assert_eq!(text(format_list(&Vec::new())), "");
    assert_eq!(text(format_list(&vec![2])), "2");
    assert_eq!(text(format_list(&vec![2, 3, 5, 7])), "2, 3, 5, 7");
    assert_eq!(
        text(format_list(&vec![
            99999787, 99999821, 99999827, 99999839, 99999847, 99999931, 99999941, 99999959,
            99999971, 99999989
        ])),
        "99999787, 99999821, 99999827, 99999839, 99999847, 99999931, 99999941, 99999959, 99999971, 99999989"
    );
}

#[test]
fn report_has_two_lines() {
    let summary = Summary { primes: vec![2, 3, 5, 7], count: 4, sum: 17, largest: vec![2, 3, 5, 7] };
    assert_eq!(text(format_report(12, &summary)), "12 4 17\n2, 3, 5, 7");
}

#[test]
fn report_of_an_empty_scan() {
    let summary = Summary { primes: Vec::new(), count: 0, sum: 0, largest: Vec::new() };
    assert_eq!(text(format_report(0, &summary)), "0 0 0\n");
}

#[test]
fn report_holds_large_sums() {
    let summary = Summary {
        primes: Vec::new(),
        count: 5_761_455,
        sum: 279_209_790_387_276,
        largest: vec![99999971, 99999989],
    };
    assert_eq!(
        text(format_report(3141, &summary)),
        "3141 5761455 279209790387276\n99999971, 99999989"
    );
}
