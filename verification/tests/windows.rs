use pi_dates::{
    chunk_bounds, chunk_count, count_sequences, is_valid_date, scan_chunk, SequenceCounts,
    BUFFER_SIZE, DOT,
};

fn strings(items: &[&str]) -> Vec<String> {
    items.iter().map(|s| s.to_string()).collect()
}

#[test]
fn valid_date_needs_eight_bytes_without_dot() {
    assert!(is_valid_date("20200101"));
    assert!(is_valid_date("14159265"));
    assert!(!is_valid_date("2020.101"));
    assert!(!is_valid_date("2020010"));
    assert!(!is_valid_date("202001011"));
    assert!(!is_valid_date(""));
    assert!(!is_valid_date("........"));
    assert_eq!(DOT, b'.');
}

#[test]
fn valid_date_counts_bytes_not_characters() {
    // Seven characters, eight bytes: 'é' takes two.
    assert!(is_valid_date("é123456"));
    // Eight characters, nine bytes.
    assert!(!is_valid_date("é1234567"));
}

#[test]
fn scan_finds_every_window_without_a_dot() {
    let dates = scan_chunk(b"3.14159265358").unwrap();
    assert_eq!(dates, strings(&["14159265", "41592653", "15926535", "59265358"]));
}

#[test]
fn scan_of_short_input_finds_nothing() {
    assert_eq!(scan_chunk(b"").unwrap(), Vec::<String>::new());
    assert_eq!(scan_chunk(b"1234567").unwrap(), Vec::<String>::new());
    assert_eq!(scan_chunk(b"12345678").unwrap(), strings(&["12345678"]));
}

#[test]
fn scan_skips_windows_with_a_dot() {
    assert_eq!(scan_chunk(b"1234.5678901").unwrap(), Vec::<String>::new());
    assert_eq!(scan_chunk(b"1234.567890123").unwrap(), strings(&["56789012", "67890123"]));
}

#[test]
fn scan_faults_when_first_character_takes_two_bytes() {
    // 'é' then six digits make eight bytes of text; the window is recorded,
    // then cannot lose one byte.
    let mut chunk = vec![0xE9u8];
    chunk.extend_from_slice(b"123456789");
    assert_eq!(scan_chunk(&chunk), Err(6));
}

#[test]
fn scan_stops_recording_once_the_window_passes_eight_bytes() {
    let mut chunk = b"1234567".to_vec();
    chunk.push(0xE9);
    chunk.extend_from_slice(b"89012345");
    assert_eq!(scan_chunk(&chunk).unwrap(), Vec::<String>::new());

    let mut chunk = b"12345678".to_vec();
    chunk.push(0xE9);
    chunk.extend_from_slice(b"9012345");
    assert_eq!(scan_chunk(&chunk).unwrap(), strings(&["12345678"]));
}

#[test]
fn scan_records_windows_with_two_byte_characters() {
    // "12345é" is eight bytes: recorded, then the window loses '1'.
    let mut chunk = b"123456".to_vec();
    chunk.push(0xE9);
    let dates = scan_chunk(&chunk).unwrap();
    assert_eq!(dates, strings(&["123456é"]));
}

#[test]
fn counts_record_and_report() {
    let mut counts = SequenceCounts::new();
    assert_eq!(counts.total(), 0);
    assert_eq!(counts.count("12345678"), 0);
    counts.record("12345678".to_string());
    counts.record("12345678".to_string());
    counts.record("87654321".to_string());
    assert_eq!(counts.count("12345678"), 2);
    assert_eq!(counts.count("87654321"), 1);
    assert_eq!(counts.count("11111111"), 0);
    assert_eq!(counts.total(), 3);
}

#[test]
fn counts_record_all_adds_each() {
    let mut counts = SequenceCounts::new();
    counts.record_all(&strings(&["a", "b", "a"]));
    counts.record_all(&strings(&["b", "c"]));
    assert_eq!(counts.count("a"), 2);
    assert_eq!(counts.count("b"), 2);
    assert_eq!(counts.count("c"), 1);
    assert_eq!(counts.total(), 5);
}

#[test]
fn recording_order_does_not_change_counts() {
    let first = strings(&["20200101", "19991231"]);
    let second = strings(&["20200101", "20011109"]);
    let mut one = SequenceCounts::new();
    one.record_all(&first);
    one.record_all(&second);
    let mut two = SequenceCounts::new();
    two.record_all(&second);
    two.record_all(&first);
    for key in ["20200101", "19991231", "20011109", "00000000"] {
        assert_eq!(one.count(key), two.count(key));
    }
    assert_eq!(one.count("20200101"), 2);
}

#[test]
fn chunking_keeps_whole_chunks_only() {
    assert_eq!(BUFFER_SIZE, 10 * 1024 * 1024);
    assert_eq!(chunk_count(25, 10), 2);
    assert_eq!(chunk_count(9, 10), 0);
    assert_eq!(chunk_count(30, 10), 3);
    assert_eq!(chunk_bounds(0, 10, 25), (0, 10));
    assert_eq!(chunk_bounds(1, 10, 25), (10, 20));
    assert_eq!(chunk_bounds(2, 10, 30), (20, 30));
}

#[test]
fn count_sequences_counts_each_chunk_separately() {
    let data = b"1234567890123456789012345";
    let counts = count_sequences(data, 10).ok().unwrap();
    assert_eq!(counts.count("12345678"), 2);
    assert_eq!(counts.count("23456789"), 2);
    assert_eq!(counts.count("34567890"), 2);
    // Windows across a chunk border, and the short tail, are not read.
    assert_eq!(counts.count("90123456"), 0);
    assert_eq!(counts.count("45678901"), 0);
    assert_eq!(counts.total(), 6);
}

#[test]
fn count_sequences_reports_the_first_faulting_chunk() {
    let mut data = b"abcdefghij".to_vec();
    data.push(0xE9);
    data.extend_from_slice(b"123456789");
    assert_eq!(count_sequences(&data, 10).err(), Some(1));
}

#[test]
fn count_sequences_of_pi_prefix() {
    let data = b"3.141592653589793238462643383279";
    let counts = count_sequences(data, data.len()).ok().unwrap();
    assert_eq!(counts.total(), data.len() - 2 - 7);
    assert_eq!(counts.count("14159265"), 1);
    assert_eq!(counts.count("3.141592"), 0);
}
