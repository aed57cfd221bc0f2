use chrono::NaiveDate;
use vstd::hash_map::StringHashMap;
use vstd::prelude::*;

use crate::rolling::{DATE_END, FIRST_DATE};
use crate::strings::string_push;

verus! {

/// A leap year of the proleptic Gregorian calendar.
pub open spec fn is_leap_year(year: int) -> bool {
    (year % 4 == 0 && year % 100 != 0) || year % 400 == 0
}

/// The number of days of `month` (1 to 12) in `year`.
pub open spec fn days_in_month(year: int, month: int) -> int {
    if month == 2 {
        if is_leap_year(year) {
            29
        } else {
            28
        }
    } else if month == 4 || month == 6 || month == 9 || month == 11 {
        30
    } else {
        31
    }
}

/// The day exists in the proleptic Gregorian calendar, in the years that
/// `chrono::NaiveDate` can hold (-262143 to 262142).
pub open spec fn calendar_date_exists(year: int, month: int, day: int) -> bool {
    &&& -262143 <= year <= 262142
    &&& 1 <= month <= 12
    &&& 1 <= day <= days_in_month(year, month)
}

/// Calls `chrono::NaiveDate::from_ymd_opt` and tells whether it gave a date.
/// Claimed, as chrono documents it: it gives one exactly when the month is 1
/// to 12, the day exists in that month of that year of the proleptic
/// Gregorian calendar, and the year lies from -262143 to 262142.
#[verifier::external_body]
fn date_exists(year: i32, month: u32, day: u32) -> (exists: bool)
    ensures
        exists == calendar_date_exists(year as int, month as int, day as int),
{
    NaiveDate::from_ymd_opt(year, month, day).is_some()
}

/// The year of an eight-digit number read as `YYYYMMDD`.
pub open spec fn year_of(number: nat) -> i32 {
    (number / 10_000) as i32
}

/// The month of an eight-digit number read as `YYYYMMDD`.
pub open spec fn month_of(number: nat) -> u32 {
    ((number / 100) % 100) as u32
}

/// The day of an eight-digit number read as `YYYYMMDD`.
pub open spec fn day_of(number: nat) -> u32 {
    (number % 100) as u32
}

/// `number`, read as `YYYYMMDD`, names a day of the calendar.
pub open spec fn names_a_date(number: nat) -> bool {
    calendar_date_exists(year_of(number) as int, month_of(number) as int, day_of(number) as int)
}

/// `names_a_date` is the calendar that `chrono` decides by.
pub proof fn lemma_names_a_date_is_the_calendar(number: nat)
    ensures
        names_a_date(number) == calendar_date_exists(year_of(number) as int, month_of(number) as int, day_of(number) as int),
{
}

/// Which eight-digit numbers `YYYYMMDD` name a day: the month is 1 to 12;
/// the day is 1 to 28, or 29 or 30 in any month but February, or 31 in
/// January, March, May, July, August, October and December, or 29 in
/// February of a Gregorian leap year.
pub proof fn lemma_names_a_date_month_by_month(number: nat)
    requires
        number < 100_000_000,
    ensures
        names_a_date(number) <==> {
            let y = number / 10_000;
            let m = (number / 100) % 100;
            let d = number % 100;
            &&& 1 <= m <= 12
            &&& 1 <= d
            &&& {
                ||| d <= 28
                ||| d <= 30 && m != 2
                ||| d == 31 && (m == 1 || m == 3 || m == 5 || m == 7 || m == 8 || m == 10 || m == 12)
                ||| d == 29 && m == 2 && ((y % 4 == 0 && y % 100 != 0) || y % 400 == 0)
            }
        },
{
    let y = number / 10_000;
    assert(y < 10_000);
    assert(year_of(number) as int == y);
    assert(month_of(number) as int == (number / 100) % 100);
    assert(day_of(number) as int == number % 100);
}

/// Splits `number` as `YYYYMMDD` into its year, month and day.
pub fn split_date_number(number: usize) -> (parts: (i32, u32, u32))
    ensures
        parts == (year_of(number as nat), month_of(number as nat), day_of(number as nat)),
{
    let year = (number / 10_000) as i32;
    let month = ((number / 100) % 100) as u32;
    let day = (number % 100) as u32;
    (year, month, day)
}

/// Whether `number`, read as `YYYYMMDD`, names a day of the calendar.
pub fn is_date_number_valid(number: usize) -> (valid: bool)
    ensures
        valid == names_a_date(number as nat),
        valid == calendar_date_exists(year_of(number as nat) as int, month_of(number as nat) as int, day_of(number as nat) as int),
{
    let (year, month, day) = split_date_number(number);
    date_exists(year, month, day)
}

/// The character of the decimal digit `d`.
pub open spec fn digit_char(d: nat) -> char {
    (48 + d) as char
}

/// The decimal digits of `n`, padded with leading zeros to `width`.
pub open spec fn decimal(n: nat, width: nat) -> Seq<char>
    decreases n + width,
{
    let last = seq![digit_char(n % 10)];
    if n < 10 && width <= 1 {
        last
    } else {
        decimal(n / 10, if width > 0 { (width - 1) as nat } else { 0 }) + last
    }
}

/// A year as `{:04}` writes it: at least four characters, zeros after the
/// sign.
pub open spec fn year_text(year: int) -> Seq<char> {
    if year < 0 {
        seq!['-'] + decimal((-year) as nat, 3)
    } else {
        decimal(year as nat, 4)
    }
}

/// The key `YYYY-MM-DD` of a day.
pub open spec fn date_text(year: int, month: nat, day: nat) -> Seq<char> {
    year_text(year) + seq!['-'] + decimal(month, 2) + seq!['-'] + decimal(day, 2)
}

fn push_decimal(s: &mut String, n: u32, width: usize)
    ensures
        final(s)@ == old(s)@ + decimal(n as nat, width as nat),
    decreases n + width,
{
    if n >= 10 || width > 1 {
        let rest = if width > 0 { width - 1 } else { 0 };
        push_decimal(s, n / 10, rest);
    }
    let digit = (48 + n % 10) as u8;
    string_push(s, digit as char);
    assert(final(s)@ =~= old(s)@ + decimal(n as nat, width as nat)) by {
        assert((digit as char) == digit_char((n % 10) as nat));
    }
}

/// The value of a text of decimal digits, the first one leading.
pub open spec fn text_value(text: Seq<char>) -> nat
    decreases text.len(),
{
    if text.len() == 0 {
        0
    } else {
        (text_value(text.drop_last()) * 10 + (text.last() as int - 48)) as nat
    }
}

/// Every character of `text` is one of `0` to `9`.
pub open spec fn all_decimal_digits(text: Seq<char>) -> bool {
    forall|i: int| 0 <= i < text.len() ==> 48 <= (#[trigger] text[i]) as int <= 57
}

/// `decimal(n, width)` is a numeral of `n`: its characters are all digits
/// `0` to `9`, they read back as `n`, and when `n` has at most `width`
/// digits there are exactly `width` of them.
pub proof fn lemma_decimal_reads_back(n: nat, width: nat)
    ensures
        all_decimal_digits(decimal(n, width)),
        text_value(decimal(n, width)) == n,
        decimal(n, width).len() >= 1,
        width >= 1 && n < crate::overlap::pow10(width) ==> decimal(n, width).len() == width,
    decreases n + width,
{
    let text = decimal(n, width);
    let last = digit_char(n % 10);
    assert(last as int == 48 + n % 10);
    if n < 10 && width <= 1 {
        assert(text.drop_last() =~= Seq::<char>::empty());
        assert(text_value(text.drop_last()) == 0);
    } else {
        let rest = if width > 0 { (width - 1) as nat } else { 0 };
        lemma_decimal_reads_back(n / 10, rest);
        assert(text.drop_last() =~= decimal(n / 10, rest));
        assert(text.last() == last);
        assert(n == (n / 10) * 10 + n % 10);
        assert forall|i: int| 0 <= i < text.len() implies 48 <= (#[trigger] text[i]) as int <= 57 by {
            if i < text.len() - 1 {
                assert(text[i] == decimal(n / 10, rest)[i]);
            }
        }
        if width >= 1 && n < crate::overlap::pow10(width) {
            assert(width >= 2);
            assert(crate::overlap::pow10(width) == 10 * crate::overlap::pow10(rest));
            assert(n / 10 < crate::overlap::pow10(rest));
        }
    }
}

/// The key of a day of the years 0 to 9999 is ten characters `YYYY-MM-DD`:
/// dashes at places 4 and 7, digits elsewhere, which read back as the year,
/// the month and the day.
pub proof fn lemma_date_text_reads_back(year: int, month: nat, day: nat)
    requires
        0 <= year <= 9999,
        month <= 99,
        day <= 99,
    ensures
        date_text(year, month, day).len() == 10,
        date_text(year, month, day)[4] == '-',
        date_text(year, month, day)[7] == '-',
        all_decimal_digits(date_text(year, month, day).subrange(0, 4)),
        all_decimal_digits(date_text(year, month, day).subrange(5, 7)),
        all_decimal_digits(date_text(year, month, day).subrange(8, 10)),
        text_value(date_text(year, month, day).subrange(0, 4)) == year,
        text_value(date_text(year, month, day).subrange(5, 7)) == month,
        text_value(date_text(year, month, day).subrange(8, 10)) == day,
{
    reveal_with_fuel(crate::overlap::pow10, 5);
    let y = decimal(year as nat, 4);
    let m = decimal(month, 2);
    let d = decimal(day, 2);
    lemma_decimal_reads_back(year as nat, 4);
    lemma_decimal_reads_back(month, 2);
    lemma_decimal_reads_back(day, 2);
    let text = date_text(year, month, day);
    assert(text =~= y + seq!['-'] + m + seq!['-'] + d);
    assert(text.subrange(0, 4) =~= y);
    assert(text.subrange(5, 7) =~= m);
    assert(text.subrange(8, 10) =~= d);
}

/// The key of a date number reads back as that number: its year, month and
/// day, read as numerals, make `YYYYMMDD` again; so two date numbers never
/// share a key.
pub proof fn lemma_key_of_reads_back(number: nat)
    requires
        number < 100_000_000,
    ensures
        key_of(number).len() == 10,
        text_value(key_of(number).subrange(0, 4)) * 10_000 + text_value(key_of(number).subrange(5, 7)) * 100
            + text_value(key_of(number).subrange(8, 10)) == number,
{
    assert(year_of(number) as int == number / 10_000);
    assert(month_of(number) as int == (number / 100) % 100);
    assert(day_of(number) as int == number % 100);
    lemma_date_text_reads_back((number / 10_000) as int, ((number / 100) % 100) as nat, number % 100);
    assert(number == (number / 10_000) * 10_000 + ((number / 100) % 100) * 100 + number % 100);
}

/// Writes the key `YYYY-MM-DD` of a day, the year with at least four
/// characters and month and day with two digits.
pub fn date_key(year: i32, month: u32, day: u32) -> (key: String)
    ensures
        key@ == date_text(year as int, month as nat, day as nat),
{
    let mut key = String::new();
    if year < 0 {
        string_push(&mut key, '-');
        push_decimal(&mut key, (-(year as i64)) as u32, 3);
    } else {
        push_decimal(&mut key, year as u32, 4);
    }
    string_push(&mut key, '-');
    push_decimal(&mut key, month, 2);
    string_push(&mut key, '-');
    push_decimal(&mut key, day, 2);
    assert(key@ =~= date_text(year as int, month as nat, day as nat));
    key
}

/// The key of the day that `number` names as `YYYYMMDD`.
pub open spec fn key_of(number: nat) -> Seq<char> {
    date_text(year_of(number) as int, month_of(number) as nat, day_of(number) as nat)
}

/// For the first `n` entries of a block of a table of counts, the block
/// starting at table index `first`: the key and count of each positive entry
/// whose number `FIRST_DATE + index` names a day, in order of the index.
pub open spec fn dated_counts_upto(counts: Seq<usize>, first: nat, n: nat) -> Seq<(Seq<char>, usize)>
    decreases n,
{
    if n == 0 {
        seq![]
    } else {
        let before = dated_counts_upto(counts, first, (n - 1) as nat);
        let count = counts[n - 1];
        let number = (FIRST_DATE + first + n - 1) as nat;
        if count > 0 && names_a_date(number) {
            before.push((key_of(number), count))
        } else {
            before
        }
    }
}

/// Every entry of the days met names a real day of the calendar: it is the
/// key and count of a positive entry `i` whose number
/// `FIRST_DATE + first + i`, read as `YYYYMMDD`, is a day that `chrono`
/// accepts; and every such positive entry has its key and count there.
pub proof fn lemma_dated_counts_are_the_days_met(counts: Seq<usize>, first: nat, n: nat)
    requires
        n <= counts.len(),
    ensures
        forall|k: int| #![trigger dated_counts_upto(counts, first, n)[k]]
            0 <= k < dated_counts_upto(counts, first, n).len() ==> exists|i: int| #![trigger counts[i]] {
            let number = (19_000_000 + first + i) as nat;
            &&& 0 <= i < n
            &&& counts[i] > 0
            &&& calendar_date_exists(year_of(number) as int, month_of(number) as int, day_of(number) as int)
            &&& dated_counts_upto(counts, first, n)[k] == (key_of(number), counts[i])
        },
        forall|i: int| 0 <= i < n && #[trigger] counts[i] > 0 && {
            let number = (19_000_000 + first + i) as nat;
            calendar_date_exists(year_of(number) as int, month_of(number) as int, day_of(number) as int)
        } ==> dated_counts_upto(counts, first, n).contains((key_of((19_000_000 + first + i) as nat), counts[i])),
    decreases n,
{
    if n > 0 {
        let m = (n - 1) as nat;
        lemma_dated_counts_are_the_days_met(counts, first, m);
        let before = dated_counts_upto(counts, first, m);
        let all = dated_counts_upto(counts, first, n);
        assert forall|k: int| #![trigger all[k]] 0 <= k < all.len() implies exists|i: int| #![trigger counts[i]] {
            let number = (19_000_000 + first + i) as nat;
            &&& 0 <= i < n
            &&& counts[i] > 0
            &&& calendar_date_exists(year_of(number) as int, month_of(number) as int, day_of(number) as int)
            &&& all[k] == (key_of(number), counts[i])
        } by {
            if k < before.len() {
                assert(all[k] == before[k]);
            } else {
                let i = m as int;
                assert(all[k] == (key_of((19_000_000 + first + i) as nat), counts[i]));
            }
        }
        assert forall|i: int| 0 <= i < n && #[trigger] counts[i] > 0 && {
            let number = (19_000_000 + first + i) as nat;
            calendar_date_exists(year_of(number) as int, month_of(number) as int, day_of(number) as int)
        } implies all.contains((key_of((19_000_000 + first + i) as nat), counts[i])) by {
            let e = (key_of((19_000_000 + first + i) as nat), counts[i]);
            if i < m {
                let k = choose|k: int| 0 <= k < before.len() && before[k] == e;
                assert(all[k] == e);
            } else {
                assert(all[all.len() - 1] == e);
            }
        }
    }
}

/// Turns a block of a table of counts, which starts at table index `first`,
/// into the days that were met: for each positive entry whose number
/// `FIRST_DATE + index` names a day, its key `YYYY-MM-DD` and its count, in
/// order of the index.
pub fn dated_counts(counts: &[usize], first: usize) -> (dated: Vec<(String, usize)>)
    requires
        FIRST_DATE + first + counts@.len() <= usize::MAX,
    ensures
        dated@.map_values(|e: (String, usize)| (e.0@, e.1)) == dated_counts_upto(counts@, first as nat, counts@.len()),
{
    let mut dated: Vec<(String, usize)> = Vec::new();
    let mut index: usize = 0;
    while index < counts.len()
        invariant
            index <= counts@.len(),
            FIRST_DATE + first + counts@.len() <= usize::MAX,
            dated@.map_values(|e: (String, usize)| (e.0@, e.1)) == dated_counts_upto(counts@, first as nat, index as nat),
        decreases counts@.len() - index,
    {
        let count = counts[index];
        if count > 0 {
            let sequence_number = FIRST_DATE + (first + index);
            if is_date_number_valid(sequence_number) {
                let (year, month, day) = split_date_number(sequence_number);
                dated.push((date_key(year, month, day), count));
            }
        }
        assert(dated@.map_values(|e: (String, usize)| (e.0@, e.1)) =~= dated_counts_upto(counts@, first as nat, (index + 1) as nat));
        index += 1;
    }
    dated
}

/// A table from the keys of days to counts, as read back from a file that
/// an earlier count wrote.
pub struct DateTable {
    map: StringHashMap<usize>,
}

impl View for DateTable {
    type V = Map<Seq<char>, usize>;

    closed spec fn view(&self) -> Map<Seq<char>, usize> {
        self.map@
    }
}

impl DateTable {
    /// An empty table.
    pub fn new() -> (table: Self)
        ensures
            table@ == Map::<Seq<char>, usize>::empty(),
    {
        DateTable { map: StringHashMap::new() }
    }

    /// Sets the count of `key`.
    pub fn insert(&mut self, key: String, count: usize)
        ensures
            final(self)@ == old(self)@.insert(key@, count),
    {
        self.map.insert(key, count);
    }

    /// Whether the table holds `key`.
    pub fn contains_key(&self, key: &str) -> (found: bool)
        ensures
            found == self@.contains_key(key@),
    {
        self.map.contains_key(key)
    }
}

/// Of the first `n` numbers from `FIRST_DATE` on, the keys of those that
/// name a day and are not in `known`, in order.
pub open spec fn missing_upto(known: Map<Seq<char>, usize>, n: nat) -> Seq<Seq<char>>
    decreases n,
{
    if n == 0 {
        seq![]
    } else {
        let before = missing_upto(known, (n - 1) as nat);
        let number = (FIRST_DATE + n - 1) as nat;
        if names_a_date(number) && !known.contains_key(key_of(number)) {
            before.push(key_of(number))
        } else {
            before
        }
    }
}

/// The days listed as missing are exactly the real days of the calendar
/// among the first `n` numbers from 19000000 whose keys the table lacks:
/// every key listed is such a day's, and every such day's key is listed.
pub proof fn lemma_missing_are_the_days_not_known(known: Map<Seq<char>, usize>, n: nat)
    ensures
        forall|k: int| #![trigger missing_upto(known, n)[k]]
            0 <= k < missing_upto(known, n).len() ==> exists|i: nat| #![trigger key_of((19_000_000 + i) as nat)] {
            let number = (19_000_000 + i) as nat;
            &&& i < n
            &&& calendar_date_exists(year_of(number) as int, month_of(number) as int, day_of(number) as int)
            &&& missing_upto(known, n)[k] == key_of(number)
            &&& !known.contains_key(key_of(number))
        },
        forall|i: nat| #![trigger key_of((19_000_000 + i) as nat)] i < n && {
            let number = (19_000_000 + i) as nat;
            &&& calendar_date_exists(year_of(number) as int, month_of(number) as int, day_of(number) as int)
            &&& !known.contains_key(key_of(number))
        } ==> missing_upto(known, n).contains(key_of((19_000_000 + i) as nat)),
    decreases n,
{
    if n > 0 {
        let m = (n - 1) as nat;
        lemma_missing_are_the_days_not_known(known, m);
        let before = missing_upto(known, m);
        let all = missing_upto(known, n);
        assert forall|k: int| #![trigger all[k]] 0 <= k < all.len() implies exists|i: nat| #![trigger key_of((19_000_000 + i) as nat)] {
            let number = (19_000_000 + i) as nat;
            &&& i < n
            &&& calendar_date_exists(year_of(number) as int, month_of(number) as int, day_of(number) as int)
            &&& all[k] == key_of(number)
            &&& !known.contains_key(key_of(number))
        } by {
            if k < before.len() {
                assert(all[k] == before[k]);
            } else {
                assert(all[k] == key_of((19_000_000 + m) as nat));
            }
        }
        assert forall|i: nat| #![trigger key_of((19_000_000 + i) as nat)] i < n && {
            let number = (19_000_000 + i) as nat;
            &&& calendar_date_exists(year_of(number) as int, month_of(number) as int, day_of(number) as int)
            &&& !known.contains_key(key_of(number))
        } implies all.contains(key_of((19_000_000 + i) as nat)) by {
            let e = key_of((19_000_000 + i) as nat);
            if i < m {
                let k = choose|k: int| 0 <= k < before.len() && before[k] == e;
                assert(all[k] == e);
            } else {
                assert(all[all.len() - 1] == e);
            }
        }
    }
}

/// The keys `YYYY-MM-DD` of the days from 1900-01-01 to 2099-12-31 that
/// `known` does not hold, in order.
pub fn missing_dates(known: &DateTable) -> (missing: Vec<String>)
    ensures
        missing@.map_values(|s: String| s@) == missing_upto(known@, (DATE_END - FIRST_DATE) as nat),
{
    let mut missing: Vec<String> = Vec::new();
    let mut i: usize = FIRST_DATE;
    while i < DATE_END
        invariant
            FIRST_DATE <= i <= DATE_END,
            missing@.map_values(|s: String| s@) == missing_upto(known@, (i - FIRST_DATE) as nat),
        decreases DATE_END - i,
    {
        if is_date_number_valid(i) {
            let (year, month, day) = split_date_number(i);
            let s = date_key(year, month, day);
            if !known.contains_key(s.as_str()) {
                missing.push(s);
            }
        }
        assert(missing@.map_values(|s: String| s@) =~= missing_upto(known@, (i + 1 - FIRST_DATE) as nat));
        i += 1;
    }
    missing
}

/// The table of counts that `serde_json` reads from the bytes `json` as a
/// map from strings to `usize`; `None` when they are not such a map.
pub uninterp spec fn json_counts(json: Seq<u8>) -> Option<Map<Seq<char>, usize>>;

/// Calls `serde_json::from_slice` to read `json` as a
/// `HashMap<String, usize>` and moves its entries into the map of a table.
/// Claimed: the table, or its absence, is a function of the bytes alone,
/// named `json_counts`; the JSON grammar it follows is not stated here.
#[verifier::external_body]
fn parse_counts(json: &[u8]) -> (table: Option<DateTable>)
    ensures
        match table {
            Some(t) => json_counts(json@) == Some(t@),
            None => json_counts(json@) is None,
        },
{
    let parsed: std::collections::HashMap<String, usize> = serde_json::from_slice(json).ok()?;
    let mut map = StringHashMap::new();
    for (key, count) in parsed {
        map.insert(key, count);
    }
    Some(DateTable { map })
}

/// Reads a JSON map of date counts from `json` and lists, in order, the keys
/// `YYYY-MM-DD` of the days from 1900-01-01 to 2099-12-31 that it lacks;
/// `None` when the bytes are not such a map.
pub fn missing_from_json(json: &[u8]) -> (missing: Option<Vec<String>>)
    ensures
        match missing {
            Some(m) => (json_counts(json@) matches Some(known)
                && m@.map_values(|s: String| s@) == missing_upto(known, (DATE_END - FIRST_DATE) as nat)),
            None => json_counts(json@) is None,
        },
{
    match parse_counts(json) {
        Some(known) => Some(missing_dates(&known)),
        None => None,
    }
}

} // verus!
