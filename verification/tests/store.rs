use intercept::classifier::Classifier;
use intercept::database::{build_from_store, Policy, Stored};
use intercept::decimal::{append_decimal, from_decimal, to_decimal};
use intercept::store::{arrange, Location};
use intercept::trace::{Trace, TraceError};

fn at(sequence: u64, nonce: u64) -> Location {
    Location { sequence, nonce }
}

fn compile(sequence: u64, nonce: u64, flags: &str, source: &str) -> Stored {
    let cmd = vec!["cc".to_string(), "-c".to_string(), flags.to_string(), source.to_string()];
    Stored { location: at(sequence, nonce), record: Ok(Trace { pid: 1, cwd: "/build".to_string(), cmd }) }
}

fn lost(sequence: u64, nonce: u64) -> Stored {
    let error = std::io::Error::new(std::io::ErrorKind::UnexpectedEof, "cut short");
    Stored { location: at(sequence, nonce), record: Err(TraceError::from(error)) }
}

#[test]
fn decimal_numerals() {
    assert_eq!(to_decimal(0), "0");
    assert_eq!(to_decimal(7), "7");
    assert_eq!(to_decimal(10), "10");
    assert_eq!(to_decimal(1234567890), "1234567890");
    assert_eq!(to_decimal(u64::MAX), "18446744073709551615");
}

#[test]
fn numerals_are_appended() {
    let mut text = "n=".to_string();
    append_decimal(&mut text, 305);
    append_decimal(&mut text, 0);
    assert_eq!(text, "n=3050");
}

#[test]
fn reading_numerals() {
    assert_eq!(from_decimal("0"), Some(0));
    assert_eq!(from_decimal("42"), Some(42));
    assert_eq!(from_decimal("18446744073709551615"), Some(u64::MAX));
    assert_eq!(from_decimal("18446744073709551616"), None);
    assert_eq!(from_decimal("99999999999999999999"), None);
    assert_eq!(from_decimal("184467440737095516150"), None);
    assert_eq!(from_decimal(""), None);
    assert_eq!(from_decimal("00"), None);
    assert_eq!(from_decimal("042"), None);
    assert_eq!(from_decimal("4 2"), None);
    assert_eq!(from_decimal("+42"), None);
    assert_eq!(from_decimal("-1"), None);
    assert_eq!(from_decimal("4२"), None);
}

#[test]
fn numerals_read_back() {
    for n in [0u64, 1, 9, 10, 99, 100, 4096, 1 << 32, u64::MAX - 1, u64::MAX] {
        assert_eq!(from_decimal(&to_decimal(n)), Some(n));
    }
}

#[test]
fn location_names() {
    assert_eq!(at(0, 0).name(), "0-0.json");
    assert_eq!(at(12, 345).name(), "12-345.json");
    assert_eq!(at(u64::MAX, 1).name(), "18446744073709551615-1.json");
}

#[test]
fn names_read_back() {
    for location in [at(0, 0), at(1, 0), at(0, 1), at(17, 4711), at(u64::MAX, u64::MAX)] {
        assert_eq!(Location::parse(&location.name()), Some(location));
    }
}

#[test]
fn distinct_locations_have_distinct_names() {
    let locations = [at(1, 23), at(12, 3), at(123, 0), at(0, 123), at(1, 2), at(2, 1)];
    for (i, a) in locations.iter().enumerate() {
        for (j, b) in locations.iter().enumerate() {
            assert_eq!(a.name() == b.name(), i == j);
        }
    }
}

#[test]
fn other_names_are_no_locations() {
    assert_eq!(Location::parse(""), None);
    assert_eq!(Location::parse(".json"), None);
    assert_eq!(Location::parse("-.json"), None);
    assert_eq!(Location::parse("1-.json"), None);
    assert_eq!(Location::parse("-1.json"), None);
    assert_eq!(Location::parse("12.json"), None);
    assert_eq!(Location::parse("1-2"), None);
    assert_eq!(Location::parse("1-2.jso"), None);
    assert_eq!(Location::parse("1-2.json "), None);
    assert_eq!(Location::parse("1-2-3.json"), None);
    assert_eq!(Location::parse("01-2.json"), None);
    assert_eq!(Location::parse("1-02.json"), None);
    assert_eq!(Location::parse("1--2.json"), None);
    assert_eq!(Location::parse("a-2.json"), None);
    assert_eq!(Location::parse("1-18446744073709551616.json"), None);
    assert_eq!(Location::parse("random"), None);
    assert_eq!(Location::parse("1-2.JSON"), None);
}

#[test]
fn order_of_writing() {
    assert!(at(1, 9).before(&at(2, 0)));
    assert!(at(1, 1).before(&at(1, 2)));
    assert!(!at(1, 1).before(&at(1, 1)));
    assert!(!at(2, 0).before(&at(1, 9)));
    assert!(!at(1, 2).before(&at(1, 1)));
}

#[test]
fn arrange_sorts_by_sequence_then_nonce() {
    let locations = vec![at(3, 0), at(1, 5), at(2, 9), at(1, 2), at(0, 7)];
    assert_eq!(arrange(&locations), vec![4, 3, 1, 2, 0]);
    assert_eq!(arrange(&Vec::new()), Vec::<usize>::new());
    assert_eq!(arrange(&vec![at(5, 5)]), vec![0]);
}

#[test]
fn arrange_keeps_equal_locations_in_the_order_given() {
    let locations = vec![at(2, 2), at(1, 1), at(2, 2), at(1, 1), at(2, 2)];
    assert_eq!(arrange(&locations), vec![1, 3, 0, 2, 4]);
}

#[test]
fn store_is_read_in_the_order_of_writing() {
    let stored = vec![
        compile(3, 0, "-O3", "x.c"),
        compile(1, 0, "-O1", "x.c"),
        compile(2, 0, "-O2", "y.c"),
    ];
    let db = build_from_store(&Classifier::new(), &Policy::new(), &stored);
    assert_eq!(db.len(), 2);
    assert_eq!(db[0].source, "y.c");
    assert_eq!(db[0].flags, vec!["-c".to_string(), "-O2".to_string()]);
    assert_eq!(db[1].source, "x.c");
    assert_eq!(db[1].flags, vec!["-c".to_string(), "-O3".to_string()]);
}

#[test]
fn listing_order_does_not_matter() {
    let one = vec![
        compile(1, 7, "-O1", "x.c"),
        lost(2, 1),
        compile(2, 3, "-O2", "x.c"),
        compile(2, 4, "-O0", "z.c"),
        compile(5, 0, "-g", "y.c"),
    ];
    let other = vec![
        compile(5, 0, "-g", "y.c"),
        compile(2, 4, "-O0", "z.c"),
        compile(2, 3, "-O2", "x.c"),
        compile(1, 7, "-O1", "x.c"),
        lost(2, 1),
    ];
    let first = build_from_store(&Classifier::new(), &Policy::new(), &one);
    let second = build_from_store(&Classifier::new(), &Policy::new(), &other);
    assert_eq!(first, second);
    assert_eq!(first.len(), 3);
    assert_eq!(first[0].source, "x.c");
    assert_eq!(first[0].flags, vec!["-c".to_string(), "-O2".to_string()]);
    assert_eq!(first[1].source, "z.c");
    assert_eq!(first[2].source, "y.c");
}

#[test]
fn unreadable_records_in_a_store_are_passed_over() {
    let stored = vec![lost(1, 1), lost(2, 2)];
    assert!(build_from_store(&Classifier::new(), &Policy::new(), &stored).is_empty());
    assert!(build_from_store(&Classifier::new(), &Policy::new(), &Vec::new()).is_empty());
}
