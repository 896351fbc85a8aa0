use bf_compiler::decimal::push_decimal;

fn written(n: usize) -> String {
    let mut out = String::new();
    push_decimal(&mut out, n);
    out
}

#[test]
fn single_digits() {
    assert_eq!(written(0), "0");
    assert_eq!(written(1), "1");
    assert_eq!(written(7), "7");
    assert_eq!(written(9), "9");
}

#[test]
fn several_digits() {
    assert_eq!(written(10), "10");
    assert_eq!(written(11), "11");
    assert_eq!(written(99), "99");
    assert_eq!(written(100), "100");
    assert_eq!(written(101), "101");
    assert_eq!(written(30000), "30000");
    assert_eq!(written(1234567890), "1234567890");
}

#[test]
fn the_largest_number() {
    assert_eq!(written(usize::MAX), format!("{}", usize::MAX));
}

#[test]
fn the_number_is_appended_to_what_is_there() {
    let mut out = String::from("n = ");
    push_decimal(&mut out, 42);
    assert_eq!(out, "n = 42");
    push_decimal(&mut out, 0);
    assert_eq!(out, "n = 420");
}

#[test]
fn agrees_with_the_standard_notation() {
    let mut n: usize = 0;
    while n < 2500 {
        assert_eq!(written(n), format!("{}", n));
        n += 1;
    }
    let mut m: usize = 1;
    while m < usize::MAX / 7 {
        assert_eq!(written(m), format!("{}", m));
        assert_eq!(written(m - 1), format!("{}", m - 1));
        m *= 7;
    }
}

#[test]
fn different_numbers_are_written_differently() {
    let numbers = [0usize, 1, 9, 10, 11, 19, 90, 91, 100, 101, 110, 1000];
    for a in numbers {
        for b in numbers {
            if a != b {
                assert_ne!(written(a), written(b));
            }
        }
    }
}
