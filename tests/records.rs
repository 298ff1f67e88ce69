use transparentlog::{
    hash, hash_four, hash_two, hash_two_strings, sample_record, LogEntry, LogRecord,
    LogTreePosition,
};

#[test]
fn a_record_encodes_as_a_messagepack_array_of_one_string() {
    let bytes = LogRecord::new("rec0").encode().unwrap();
    assert_eq!(vec![0x91, 0xa4, b'r', b'e', b'c', b'0'], bytes);
    assert_eq!(rmp_serde::to_vec(&("rec0",)).unwrap(), bytes);
    let empty = LogRecord::new("").encode().unwrap();
    assert_eq!(vec![0x91, 0xa0], empty);
}

#[test]
fn sample_records_are_named_in_decimal() {
    assert_eq!("rec0", sample_record(0).text);
    assert_eq!("rec12", sample_record(12).text);
    assert_eq!("rec18446744073709551615", sample_record(usize::MAX).text);
}

#[test]
fn hashes_of_sample_records_combine_pairwise() {
    let h10 = hash(&LogRecord::new("rec10")).unwrap();
    let h11 = hash(&LogRecord::new("rec11")).unwrap();
    assert_eq!(hash_two_strings(&h10, &h11), hash_two(10).unwrap());
    let left = hash_two(0).unwrap();
    let right = hash_two(2).unwrap();
    assert_eq!(hash_two_strings(&left, &right), hash_four(0).unwrap());
}

#[test]
fn positions_convert_from_pairs() {
    let p: LogTreePosition = (3, 7).into();
    assert_eq!(LogTreePosition { level: 3, index: 7 }, p);
}
