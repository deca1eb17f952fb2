//! Form values as they go into a document: dates and times are read and written in
//! the formats a placeholder asks for (with `chrono`), other values go in as entered.
use vstd::prelude::*;
use chrono::{Datelike, Timelike};
use crate::fill::FieldValues;
use crate::pattern::{parse_placeholder, placeholder_parts};
use crate::text::{append_chars, append_str, chars_of, decimal, eq_chars, string_from_chars, u64_decimal};

verus! {

/// `s` padded on the left with zeros to at least `n` characters.
pub open spec fn pad_zeros(s: Seq<char>, n: int) -> Seq<char> {
    if s.len() < n {
        Seq::new((n - s.len()) as nat, |i: int| '0') + s
    } else {
        s
    }
}

/// A number written with at least two digits (`{:02}`).
pub open spec fn two_digits(v: nat) -> Seq<char> {
    pad_zeros(decimal(v), 2)
}

/// A signed number written in decimal (`{}`): a minus sign before negative ones.
pub open spec fn int_decimal(v: int) -> Seq<char> {
    if v < 0 {
        "-"@ + decimal((-v) as nat)
    } else {
        decimal(v as nat)
    }
}

/// A year as `chrono` writes `%Y`: years 0 to 9999 with four digits, others with a
/// sign and at least four digits.
pub open spec fn year_text(y: int) -> Seq<char> {
    if 0 <= y <= 9999 {
        pad_zeros(decimal(y as nat), 4)
    } else if y < 0 {
        "-"@ + pad_zeros(decimal((-y) as nat), 4)
    } else {
        "+"@ + pad_zeros(decimal(y as nat), 4)
    }
}

/// Whether `y` is a leap year of the proleptic Gregorian calendar.
pub open spec fn is_leap(y: int) -> bool {
    y % 4 == 0 && (y % 100 != 0 || y % 400 == 0)
}

/// The number of days of month `m` of year `y`.
pub open spec fn days_in_month(y: int, m: int) -> int {
    if m == 2 {
        if is_leap(y) {
            29
        } else {
            28
        }
    } else if m == 4 || m == 6 || m == 9 || m == 11 {
        30
    } else {
        31
    }
}

/// Whether year `y`, month `m`, day `d` is a date that `chrono::NaiveDate` holds.
pub open spec fn date_in_range(y: int, m: int, d: int) -> bool {
    &&& -262143 <= y <= 262142
    &&& 1 <= m <= 12
    &&& 1 <= d <= days_in_month(y, m)
}

/// The date (year, month, day) that `NaiveDate::parse_from_str` reads from a text in
/// the format `%Y-%m-%d`, if it reads one.
pub uninterp spec fn parsed_date(s: Seq<char>) -> Option<(i32, u32, u32)>;

/// The time (hour, minute) that `NaiveTime::parse_from_str` reads from a text in the
/// format `%H:%M`, if it reads one.
pub uninterp spec fn parsed_time(s: Seq<char>) -> Option<(u32, u32)>;

/// Calls `chrono::NaiveDate::parse_from_str(value, "%Y-%m-%d")` and gives the date's
/// year, month and day. Claims that the result is `parsed_date` of the text, and that a
/// date read is one that `NaiveDate` holds.
#[verifier::external_body]
fn parse_date(value: &str) -> (r: Option<(i32, u32, u32)>)
    ensures
        r == parsed_date(value@),
        r matches Some(v) ==> date_in_range(v.0 as int, v.1 as int, v.2 as int),
{
    match chrono::NaiveDate::parse_from_str(value, "%Y-%m-%d") {
        Ok(d) => Some((d.year(), d.month(), d.day())),
        Err(_) => None,
    }
}

/// Calls `chrono::NaiveDate::from_ymd_opt` and formats the date with `%d.%m.%Y`.
/// Claims that a date in range is accepted and that the text is the day and month with
/// two digits and the year as `%Y` writes it, separated by dots.
#[verifier::external_body]
fn format_date(year: i32, month: u32, day: u32) -> (r: Option<String>)
    ensures
        date_in_range(year as int, month as int, day as int) ==> r is Some,
        r matches Some(s) ==> s@ == two_digits(day as nat) + "."@ + two_digits(month as nat) + "."@
            + year_text(year as int),
{
    match chrono::NaiveDate::from_ymd_opt(year, month, day) {
        Some(d) => Some(d.format("%d.%m.%Y").to_string()),
        None => None,
    }
}

/// Calls `chrono::NaiveTime::parse_from_str(value, "%H:%M")` and gives the time's hour
/// and minute. Claims that the result is `parsed_time` of the text, with an hour below
/// 24 and a minute below 60.
#[verifier::external_body]
fn parse_time(value: &str) -> (r: Option<(u32, u32)>)
    ensures
        r == parsed_time(value@),
        r matches Some(v) ==> v.0 < 24 && v.1 < 60,
{
    match chrono::NaiveTime::parse_from_str(value, "%H:%M") {
        Ok(t) => Some((t.hour(), t.minute())),
        Err(_) => None,
    }
}

/// Calls `chrono::NaiveTime::from_hms_opt(hour, minute, 0)` and formats the time with
/// `%H:%M`. Claims that an hour below 24 and a minute below 60 are accepted, and that
/// the text is both with two digits, separated by a colon.
#[verifier::external_body]
fn format_time(hour: u32, minute: u32) -> (r: Option<String>)
    ensures
        hour < 24 && minute < 60 ==> r is Some,
        r matches Some(s) ==> s@ == two_digits(hour as nat) + ":"@ + two_digits(minute as nat),
{
    match chrono::NaiveTime::from_hms_opt(hour, minute, 0) {
        Some(t) => Some(t.format("%H:%M").to_string()),
        None => None,
    }
}

/// The Russian name of month `m` in the genitive, as a full date writes it.
pub open spec fn month_name(m: int) -> Seq<char> {
    if m == 1 {
        "января"@
    } else if m == 2 {
        "февраля"@
    } else if m == 3 {
        "марта"@
    } else if m == 4 {
        "апреля"@
    } else if m == 5 {
        "мая"@
    } else if m == 6 {
        "июня"@
    } else if m == 7 {
        "июля"@
    } else if m == 8 {
        "августа"@
    } else if m == 9 {
        "сентября"@
    } else if m == 10 {
        "октября"@
    } else if m == 11 {
        "ноября"@
    } else {
        "декабря"@
    }
}

/// A value formatted for its field type: a date read as `%Y-%m-%d` is written
/// `"dd" <month> <year> г.` with the format `full`, else `dd.mm.yyyy`; a time read as
/// `%H:%M` is written `HH час. MM мин` with the format `hour_min`, else `HH:MM`; a value
/// that does not read, and a value of another type, goes in as entered.
pub open spec fn formatted_value(field_type: Seq<char>, format: Option<Seq<char>>, value: Seq<char>) -> Seq<char> {
    if field_type == "date"@ {
        match parsed_date(value) {
            Some(dt) => if format == Some("full"@) {
                "\""@ + two_digits(dt.2 as nat) + "\" "@ + month_name(dt.1 as int) + " "@
                    + int_decimal(dt.0 as int) + " г."@
            } else {
                two_digits(dt.2 as nat) + "."@ + two_digits(dt.1 as nat) + "."@ + year_text(dt.0 as int)
            },
            None => value,
        }
    } else if field_type == "time"@ {
        match parsed_time(value) {
            Some(tm) => if format == Some("hour_min"@) {
                two_digits(tm.0 as nat) + " час. "@ + two_digits(tm.1 as nat) + " мин"@
            } else {
                two_digits(tm.0 as nat) + ":"@ + two_digits(tm.1 as nat)
            },
            None => value,
        }
    } else {
        value
    }
}

/// Whether a string has the characters of a literal.
fn is_text(s: &str, lit: &str) -> (r: bool)
    ensures
        r == (s@ == lit@),
{
    let a = chars_of(s);
    let b = chars_of(lit);
    eq_chars(a.as_slice(), b.as_slice())
}

/// Appends a number with at least two digits (see `two_digits`).
fn append_two_digits(out: &mut Vec<char>, v: u32)
    ensures
        final(out)@ == old(out)@ + two_digits(v as nat),
{
    let d = u64_decimal(v as u64);
    if v < 10 {
        out.push('0');
        assert(d@.len() == 1);
        assert(Seq::new(1nat, |i: int| '0') =~= seq!['0']);
    } else {
        assert(d@.len() >= 2) by {
            assert(decimal(v as nat) == decimal(v as nat / 10).push(crate::text::digit_char((v % 10) as int)));
            assert(decimal(v as nat / 10).len() >= 1) by {
                lemma_decimal_nonempty(v as nat / 10);
            }
        }
    }
    append_chars(out, d.as_slice());
    assert(final(out)@ =~= old(out)@ + two_digits(v as nat));
}

/// Lemma: a decimal notation has at least one digit.
pub proof fn lemma_decimal_nonempty(n: nat)
    ensures
        decimal(n).len() >= 1,
    decreases n,
{
    if n >= 10 {
        lemma_decimal_nonempty(n / 10);
    }
}

/// Appends a signed number in decimal (see `int_decimal`).
fn append_int_decimal(out: &mut Vec<char>, v: i32)
    ensures
        final(out)@ == old(out)@ + int_decimal(v as int),
{
    if v < 0 {
        let m: u64 = (0i64 - (v as i64)) as u64;
        append_str(out, "-");
        let d = u64_decimal(m);
        append_chars(out, d.as_slice());
        assert(final(out)@ =~= old(out)@ + int_decimal(v as int));
    } else {
        let d = u64_decimal(v as u64);
        append_chars(out, d.as_slice());
    }
}

/// Appends the month's name (see `month_name`).
fn append_month_name(out: &mut Vec<char>, m: u32)
    ensures
        final(out)@ == old(out)@ + month_name(m as int),
{
    let name = if m == 1 {
        "января"
    } else if m == 2 {
        "февраля"
    } else if m == 3 {
        "марта"
    } else if m == 4 {
        "апреля"
    } else if m == 5 {
        "мая"
    } else if m == 6 {
        "июня"
    } else if m == 7 {
        "июля"
    } else if m == 8 {
        "августа"
    } else if m == 9 {
        "сентября"
    } else if m == 10 {
        "октября"
    } else if m == 11 {
        "ноября"
    } else {
        "декабря"
    };
    append_str(out, name);
}

/// Formats a value for its field type (see `formatted_value`).
pub fn format_value(type_: &str, format_: Option<&str>, value: &str) -> (r: String)
    ensures
        r@ == formatted_value(
            type_@,
            match format_ {
                Some(f) => Some(f@),
                None => None,
            },
            value@,
        ),
{
    let ghost fmt = match format_ {
        Some(f) => Some(f@),
        None => None::<Seq<char>>,
    };
    if is_text(type_, "date") {
        match parse_date(value) {
            Some((y, m, d)) => {
                let full = match format_ {
                    Some(f) => is_text(f, "full"),
                    None => false,
                };
                assert(full == (fmt == Some("full"@)));
                if full {
                    let mut out: Vec<char> = Vec::new();
                    append_str(&mut out, "\"");
                    append_two_digits(&mut out, d);
                    append_str(&mut out, "\" ");
                    append_month_name(&mut out, m);
                    append_str(&mut out, " ");
                    append_int_decimal(&mut out, y);
                    append_str(&mut out, " г.");
                    string_from_chars(out.as_slice())
                } else {
                    match format_date(y, m, d) {
                        Some(s) => s,
                        None => crate::error::owned(value),
                    }
                }
            },
            None => crate::error::owned(value),
        }
    } else if is_text(type_, "time") {
        match parse_time(value) {
            Some((h, mi)) => {
                let hm = match format_ {
                    Some(f) => is_text(f, "hour_min"),
                    None => false,
                };
                assert(hm == (fmt == Some("hour_min"@)));
                if hm {
                    let mut out: Vec<char> = Vec::new();
                    append_two_digits(&mut out, h);
                    append_str(&mut out, " час. ");
                    append_two_digits(&mut out, mi);
                    append_str(&mut out, " мин");
                    string_from_chars(out.as_slice())
                } else {
                    match format_time(h, mi) {
                        Some(s) => s,
                        None => crate::error::owned(value),
                    }
                }
            },
            None => crate::error::owned(value),
        }
    } else {
        crate::error::owned(value)
    }
}

/// The value that goes in for a placeholder: a text, or the raw entries of a measurement
/// with its hardware error (measured value, main and additional relative error in
/// percent), which are computed in floating point outside this library.
#[derive(Debug, Clone, PartialEq, Eq)]
pub enum FormValue {
    Text(String),
    HardwareError { measurement: String, main: String, additional: String },
}

/// The value of a form value.
pub enum FormValueView {
    Text(Seq<char>),
    HardwareError { measurement: Seq<char>, main: Seq<char>, additional: Seq<char> },
}

impl View for FormValue {
    type V = FormValueView;

    open spec fn view(&self) -> FormValueView {
        match self {
            FormValue::Text(t) => FormValueView::Text(t@),
            FormValue::HardwareError { measurement, main, additional } => FormValueView::HardwareError {
                measurement: measurement@,
                main: main@,
                additional: additional@,
            },
        }
    }
}

/// The entry of `key` in the form, or `default` when there is none.
pub open spec fn entry_or(form: FieldValues, key: Seq<char>, default: Seq<char>) -> Seq<char> {
    match form.value_of(key) {
        Some(v) => v,
        None => default,
    }
}

/// The value that goes in for placeholder `ph`: for a hardware error, the entries
/// `<ph>__measurement_result` (empty when missing), `<ph>__main_relative_error_percent`
/// (`8` when missing) and `<ph>__additional_relative_error_percent` (`0` when missing);
/// for any other type, the entry `<ph>` (empty when missing) formatted for the type.
pub open spec fn form_value_of(ph: Seq<char>, form: FieldValues) -> FormValueView {
    let parts = placeholder_parts(ph);
    if parts.1 != "hardware_error"@ {
        FormValueView::Text(formatted_value(parts.1, parts.2, entry_or(form, ph, Seq::empty())))
    } else {
        FormValueView::HardwareError {
            measurement: entry_or(form, ph + "__measurement_result"@, Seq::empty()),
            main: entry_or(form, ph + "__main_relative_error_percent"@, "8"@),
            additional: entry_or(form, ph + "__additional_relative_error_percent"@, "0"@),
        }
    }
}

/// The entry of `ph` followed by `suffix`, or `default` (see `entry_or`).
fn entry_with_suffix(form: &FieldValues, ph: &str, suffix: &str, default: &str) -> (r: String)
    ensures
        r@ == entry_or(*form, ph@ + suffix@, default@),
{
    let mut key = chars_of(ph);
    append_str(&mut key, suffix);
    let k = string_from_chars(key.as_slice());
    match form.get(k.as_str()) {
        Some(v) => v,
        None => crate::error::owned(default),
    }
}

/// The value that goes in for placeholder `ph` from the entries of the form (see
/// `form_value_of`).
pub fn format_form_value(ph: &str, form: &FieldValues) -> (r: FormValue)
    ensures
        r@ == form_value_of(ph@, *form),
{
    let (_name, field_type, format) = parse_placeholder(ph);
    if !is_text(field_type.as_str(), "hardware_error") {
        let value = entry_with_suffix(form, ph, "", "");
        assert(ph@ + ""@ =~= ph@ && ""@ =~= Seq::<char>::empty()) by {
            reveal_strlit("");
        }
        let f = match &format {
            Some(x) => Some(x.as_str()),
            None => None,
        };
        let ghost fv = match f {
            Some(x) => Some(x@),
            None => None::<Seq<char>>,
        };
        assert(fv == placeholder_parts(ph@).2);
        let out = format_value(field_type.as_str(), f, value.as_str());
        assert(out@ == formatted_value(field_type@, fv, value@));
        FormValue::Text(out)
    } else {
        proof {
            reveal_strlit("");
        }
        let measurement = entry_with_suffix(form, ph, "__measurement_result", "");
        let main = entry_with_suffix(form, ph, "__main_relative_error_percent", "8");
        let additional = entry_with_suffix(form, ph, "__additional_relative_error_percent", "0");
        assert(measurement@ == entry_or(*form, ph@ + "__measurement_result"@, Seq::empty()));
        assert(field_type@ == "hardware_error"@);
        FormValue::HardwareError { measurement, main, additional }
    }
}

} // verus!
