//! Counting the eight-character sequences of a text, such as the digits of
//! pi, that may be dates written `YYYYMMDD`.
//!
//! - `validity`: whether a sequence of text may be a date.
//! - `window`: reading a chunk of bytes through a sliding window of text.
//! - `counts`: how often each sequence was met.
//! - `chunks`: cutting the input into whole chunks and counting them all.
//! - `rolling`: reading digits into a rolling eight-digit number, and
//!   overlapping chunks for reading in parallel.
//! - `overlap`: why overlapping chunks take every eight-digit window once,
//!   and how the window of text and the rolling number agree on digits.
//! - `carry`: reading in blocks through one buffer, carrying a window across.
//! - `naive`: two readings whose arithmetic grows with the input.
//! - `parse`: reading a decimal number as `str::parse::<usize>` does.
//! - `stats`: counting and finding the greatest entries of a table.
//! - `dates`: days of the calendar, their keys, and the days not met.

pub mod carry;
pub mod chunks;
pub mod counts;
pub mod dates;
pub mod naive;
pub mod overlap;
pub mod parse;
pub mod rolling;
pub mod stats;
mod strings;
pub mod validity;
pub mod window;

pub use carry::carry_scan;
pub use chunks::{chunk_bounds, chunk_count, count_sequences, BUFFER_SIZE};
pub use counts::SequenceCounts;
pub use dates::{
    date_key, dated_counts, is_date_number_valid, missing_dates, missing_from_json,
    split_date_number, DateTable,
};
pub use naive::{rebuild_offsets, subtract_offsets};
pub use parse::{parse_usize, PLUS};
pub use rolling::{
    chunk_date_offsets, chunk_numbers, next_number, overlapped_chunk_bounds,
    overlapped_chunk_count, CHUNK_SIZE, DATE_END, FIRST_DATE, OVERLAP, POWER_OF_TEN, ZERO,
};
pub use stats::{add_offsets, count_positive, count_true, last_max};
pub use validity::{is_valid_date, DOT};
pub use window::{scan_chunk, scan_window};
