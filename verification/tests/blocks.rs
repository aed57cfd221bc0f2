use pi_dates::{carry_scan, parse_usize, rebuild_offsets, subtract_offsets, PLUS};

#[test]
fn parse_usize_reads_like_str_parse() {
    for s in ["123", "+12", "0001", "", "+", "-1", "12a", "1.5", " 1", "18446744073709551615", "18446744073709551616", "99999999999999999999999"] {
        assert_eq!(parse_usize(s), s.parse::<usize>().ok(), "{s:?}");
    }
    assert_eq!(parse_usize("+12"), Some(12));
    assert_eq!(parse_usize("é"), None);
    assert_eq!(PLUS, b'+');
}

#[test]
fn carry_scan_reads_each_block_and_one_window_across() {
    // Blocks "1999123120" and "000101": 19991231 is found; of the windows
    // across the border only "91231200" is read, and 20000101 is missed.
    assert_eq!(carry_scan(b"1999123120000101", 10), Some(vec![991231]));
    // With one block, every window is read.
    assert_eq!(carry_scan(b"1999123120000101", 100), Some(vec![991231, 1000101]));
}

#[test]
fn carry_scan_completes_the_window_from_the_buffer() {
    // Blocks "19991" and "23100": the window "19991" left is completed with
    // "231" to 19991231; the blocks are too short to hold a window.
    assert_eq!(carry_scan(b"1999123100", 5), Some(vec![991231]));
    // Blocks "19991" and "23": the buffer still holds "991" after "23", so
    // the window is completed to 19991239.
    assert_eq!(carry_scan(b"1999123", 5), Some(vec![991239]));
    // Blocks "12345678" and "19001231": "2345678" + "1" is read, then the
    // second block holds 19001231.
    assert_eq!(carry_scan(b"1234567819001231", 8), Some(vec![1231]));
}

#[test]
fn carry_scan_on_digits_reads_inner_runs_and_one_run_per_border() {
    let texts: [&[u8]; 2] = [
        b"1415926535897932384626433832795028841971693993751058209749445923078164062862089986280348253421170679",
        b"2000010119991231201006151900010120991231190012312000022920200101",
    ];
    for (data, size) in texts.iter().flat_map(|d| (8..40usize).map(move |s| (*d, s))) {
        let mut expected: Vec<usize> = Vec::new();
        let mut start = 0;
        while start < data.len() {
            let end = (start + size).min(data.len());
            let mut runs: Vec<&[u8]> = Vec::new();
            if start > 0 {
                runs.push(&data[start - 7..start + 1]);
            }
            if end - start >= 8 {
                for i in start..=end - 8 {
                    runs.push(&data[i..i + 8]);
                }
            }
            for run in runs {
                let n: usize = std::str::from_utf8(run).unwrap().parse().unwrap();
                if (19_000_000..21_000_000).contains(&n) {
                    expected.push(n - 19_000_000);
                }
            }
            start += size;
        }
        assert_eq!(carry_scan(data, size), Some(expected), "size {size}");
    }
    assert_eq!(carry_scan(b"190001011900010119000101", 8), Some(vec![101, 101, 101]));
}

#[test]
fn carry_scan_faults_like_the_program() {
    // A date-like window that is not a number.
    assert_eq!(carry_scan(b"abcdefgh", 8), None);
    // A window longer than eight bytes carried over.
    let mut data = b"1234567".to_vec();
    data.push(0xE9);
    data.push(b'1');
    assert_eq!(carry_scan(&data, 8), None);
    // Dots make windows that are not dates and are skipped.
    assert_eq!(carry_scan(b"3.1415926535", 8), Some(vec![]));
    assert_eq!(carry_scan(b"", 8), Some(vec![]));
}

#[test]
fn subtract_offsets_follow_the_running_subtraction() {
    assert_eq!(subtract_offsets(b"19991231"), Ok(vec![991231]));
    assert_eq!(subtract_offsets(b"199912310"), Ok(vec![991231]));
    assert_eq!(subtract_offsets(b"20000101"), Ok(vec![1000101]));
    assert_eq!(subtract_offsets(b"00000000200001019"), Ok(vec![1000101]));
    // A '.' is below '0'.
    assert_eq!(subtract_offsets(b"3.14"), Err(1));
    // The number grows tenfold per byte until it overflows.
    assert_eq!(subtract_offsets(&[b'9'; 30]), Err(19));
    assert_eq!(subtract_offsets(&[b'1'; 30]), Err(20));
    assert_eq!(subtract_offsets(b""), Ok(vec![]));
}

#[test]
fn rebuild_offsets_follow_the_window_rebuilding() {
    assert_eq!(rebuild_offsets(b"19991231"), Ok(vec![991231]));
    assert_eq!(rebuild_offsets(b"199912310"), Ok(vec![991231]));
    assert_eq!(rebuild_offsets(b"20000101"), Ok(vec![1000101]));
    assert_eq!(rebuild_offsets(b"3.14"), Ok(vec![]));
    assert_eq!(rebuild_offsets(&[b'9'; 30]), Err(2));
    assert_eq!(rebuild_offsets(b"00000000200001019"), Err(5));
    assert_eq!(rebuild_offsets(b"3.141592"), Err(0));
}
