use kvs::error::KvError;
use kvs::names::{decimal_string, extract_counter, is_immutable_file, segment_file_name};

#[test]
fn immutable_files_are_told_by_their_extension() {
    assert!(is_immutable_file("1.immutable"));
    assert!(is_immutable_file("x.immutable"));
    assert!(is_immutable_file("..immutable"));
    assert!(!is_immutable_file(".immutable"));
    assert!(!is_immutable_file("immutable"));
    assert!(!is_immutable_file("db.active"));
    assert!(!is_immutable_file("1.immutable.bak"));
    assert!(!is_immutable_file(""));
}

#[test]
fn counters_are_read_from_the_stem() {
    assert_eq!(extract_counter("1.immutable"), Ok(1));
    assert_eq!(extract_counter("0042.immutable"), Ok(42));
    assert_eq!(extract_counter("+5.immutable"), Ok(5));
    assert_eq!(extract_counter("18446744073709551615.immutable"), Ok(u64::MAX));
    assert_eq!(extract_counter("12"), Ok(12));
    assert_eq!(extract_counter("12.txt"), Ok(12));
    for name in [
        "18446744073709551616.immutable",
        "x.immutable",
        "1x.immutable",
        "-1.immutable",
        "+.immutable",
        ".immutable",
        "1.2.immutable",
        "١.immutable",
        "",
    ] {
        assert!(matches!(extract_counter(name), Err(KvError::Consistency(_))));
    }
}

#[test]
fn segment_names_are_the_counter_and_the_extension() {
    assert_eq!(segment_file_name(0), "0.immutable");
    assert_eq!(segment_file_name(1), "1.immutable");
    assert_eq!(segment_file_name(1203), "1203.immutable");
    assert_eq!(segment_file_name(u64::MAX), "18446744073709551615.immutable");
    assert_eq!(decimal_string(90), "90");
    assert_eq!(extract_counter(&segment_file_name(987654321)), Ok(987654321));
}
