use pi_dates::{
    chunk_date_offsets, chunk_numbers, count_positive, count_true, date_key, dated_counts,
    is_date_number_valid, last_max, missing_dates, next_number, overlapped_chunk_bounds,
    overlapped_chunk_count, split_date_number, DateTable, CHUNK_SIZE, DATE_END, FIRST_DATE,
    OVERLAP, POWER_OF_TEN, ZERO,
};

#[test]
fn constants_match_the_program() {
    assert_eq!(POWER_OF_TEN, 10usize.pow(7));
    assert_eq!(FIRST_DATE, 1900_0000);
    assert_eq!(DATE_END, 2100_0000);
    assert_eq!(CHUNK_SIZE, 16 * 1024 * 1024);
    assert_eq!(OVERLAP, 7);
    assert_eq!(ZERO, b'0');
}

#[test]
fn next_number_drops_the_leading_digit() {
    assert_eq!(next_number(0, b'3'), 3);
    assert_eq!(next_number(3, b'.'), 3);
    assert_eq!(next_number(12345678, b'9'), 23456789);
    assert_eq!(next_number(1234567, b'8'), 12345678);
    // A byte above '9' counts as a large digit.
    assert_eq!(next_number(0, b'a'), 49);
}

#[test]
fn chunk_numbers_follow_the_last_eight_digits() {
    let numbers = chunk_numbers(b"3.1415926535").unwrap();
    assert_eq!(
        numbers,
        vec![3, 3, 31, 314, 3141, 31415, 314159, 3141592, 31415926, 14159265, 41592653, 15926535]
    );
}

#[test]
fn chunk_numbers_stop_at_a_byte_below_zero() {
    assert_eq!(chunk_numbers(b"12-45"), Err(2));
    assert_eq!(chunk_date_offsets(b"1 2"), Err(1));
}

#[test]
fn chunk_date_offsets_find_date_windows() {
    // 19991231 and 20000101 appear; 99912312 does not count.
    let offsets = chunk_date_offsets(b"1999123120000101").unwrap();
    assert_eq!(offsets, vec![19991231 - FIRST_DATE, 20000101 - FIRST_DATE]);
}

#[test]
fn chunk_date_offsets_skip_dots() {
    let offsets = chunk_date_offsets(b"2000.0101").unwrap();
    assert_eq!(offsets, vec![20000101 - FIRST_DATE]);
}

#[test]
fn overlapped_chunks_cover_the_input() {
    assert_eq!(overlapped_chunk_count(25, 10), 3);
    assert_eq!(overlapped_chunk_count(30, 10), 3);
    assert_eq!(overlapped_chunk_count(0, 10), 0);
    assert_eq!(overlapped_chunk_bounds(0, 10, 25), (0, 17));
    assert_eq!(overlapped_chunk_bounds(1, 10, 25), (10, 25));
    assert_eq!(overlapped_chunk_bounds(2, 10, 25), (20, 25));
}

#[test]
fn counting_helpers() {
    assert_eq!(count_positive(&[0, 3, 0, 1, 1]), 3);
    assert_eq!(count_positive(&[]), 0);
    assert_eq!(count_true(&[true, false, true]), 2);
    assert_eq!(last_max(&[1, 5, 2, 5, 3]), Some((3, 5)));
    assert_eq!(last_max(&[7]), Some((0, 7)));
    assert_eq!(last_max(&[]), None);
}

#[test]
fn date_numbers_are_checked_with_the_calendar() {
    assert_eq!(split_date_number(20240229), (2024, 2, 29));
    assert!(is_date_number_valid(20240229));
    assert!(!is_date_number_valid(20230229));
    assert!(is_date_number_valid(20000229));
    assert!(!is_date_number_valid(19000229));
    assert!(!is_date_number_valid(20231301));
    assert!(!is_date_number_valid(20230100));
    assert!(!is_date_number_valid(20230431));
    assert!(is_date_number_valid(20231231));
}

#[test]
fn date_keys_are_zero_padded() {
    assert_eq!(date_key(2024, 2, 9), "2024-02-09");
    assert_eq!(date_key(5, 12, 31), "0005-12-31");
    assert_eq!(date_key(-5, 1, 1), "-005-01-01");
    assert_eq!(date_key(102000, 1, 1), "102000-01-01");
    for (y, m, d) in [(1999, 1, 2), (-262143, 7, 30), (0, 10, 10)] {
        assert_eq!(date_key(y, m, d), format!("{y:04}-{m:02}-{d:02}"));
    }
}

#[test]
fn dated_counts_keep_positive_real_days() {
    let mut counts = vec![0usize; 200];
    counts[0] = 2; // 19000000: day 0, not a date
    counts[1] = 3; // 19000001: month 0, not a date
    counts[101] = 4; // 19000101
    counts[131] = 1; // 19000131
    counts[132] = 1; // 19000132, not a day
    let dated = dated_counts(&counts, 0);
    assert_eq!(dated_counts(&counts[100..], 100), dated);
    assert_eq!(dated_counts(&counts[..101], 0), vec![]);
    assert_eq!(dated, vec![("1900-01-01".to_string(), 4), ("1900-01-31".to_string(), 1)]);
}

#[test]
fn missing_dates_lists_unknown_days() {
    let mut known = DateTable::new();
    known.insert("1900-01-01".to_string(), 3);
    known.insert("2099-12-31".to_string(), 1);
    let missing = missing_dates(&known);
    assert_eq!(missing.len(), 73049 - 2);
    assert_eq!(missing[0], "1900-01-02");
    assert_eq!(missing[missing.len() - 1], "2099-12-30");
    assert!(known.contains_key("1900-01-01"));
    assert!(!known.contains_key("1900-01-02"));
}

#[test]
fn overlapping_chunks_take_every_window_once() {
    let data = b"19991231200001011999123120000101190001012099123119000101";
    let whole = chunk_date_offsets(data).unwrap();
    for size in [1usize, 3, 7, 8, 9, 16, 100] {
        let n = overlapped_chunk_count(data.len(), size);
        let mut joined = Vec::new();
        for i in 0..n {
            let (start, end) = overlapped_chunk_bounds(i, size, data.len());
            joined.extend(chunk_date_offsets(&data[start..end]).unwrap());
        }
        assert_eq!(joined, whole, "chunk size {size}");
    }
    assert_eq!(whole.len(), 7);
}

#[test]
fn add_offsets_counts_each_offset() {
    let mut table = vec![0usize; 4];
    assert_eq!(pi_dates::add_offsets(&mut table, &[1, 3, 1]), Ok(()));
    assert_eq!(table, vec![0, 2, 0, 1]);
    assert_eq!(pi_dates::add_offsets(&mut table, &[0, 4, 2]), Err(1));
    assert_eq!(table, vec![1, 2, 0, 1]);
    let mut full = vec![usize::MAX, 0];
    assert_eq!(pi_dates::add_offsets(&mut full, &[1, 0]), Err(1));
    assert_eq!(full, vec![usize::MAX, 1]);
}

#[test]
fn text_window_and_rolling_number_agree_on_digits() {
    let chunk = b"314159265358979323846";
    let runs = pi_dates::scan_chunk(chunk).unwrap();
    let numbers = chunk_numbers(chunk).unwrap();
    assert_eq!(runs.len(), chunk.len() - 7);
    for (i, run) in runs.iter().enumerate() {
        assert_eq!(run.as_bytes(), &chunk[i..i + 8]);
        assert_eq!(run.parse::<usize>().unwrap(), numbers[i + 7]);
    }
}

#[test]
fn missing_from_json_reads_the_counts() {
    let json = br#"{"1900-01-01": 3, "2099-12-31": 1, "not a day": 7}"#;
    let missing = pi_dates::missing_from_json(json).unwrap();
    assert_eq!(missing.len(), 73049 - 2);
    assert_eq!(missing[0], "1900-01-02");
    assert_eq!(missing[missing.len() - 1], "2099-12-30");
    let none = pi_dates::missing_from_json(b"{}").unwrap();
    assert_eq!(none.len(), 73049);
    assert_eq!(none[0], "1900-01-01");
}

#[test]
fn missing_from_json_refuses_other_json() {
    assert_eq!(pi_dates::missing_from_json(b"[1, 2]"), None);
    assert_eq!(pi_dates::missing_from_json(br#"{"1900-01-01": -1}"#), None);
    assert_eq!(pi_dates::missing_from_json(b"not json"), None);
}
