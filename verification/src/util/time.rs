//! The clock: the current time in seconds, the current year, and durations
//! written as hours, minutes and seconds.
use vstd::prelude::*;
use chrono::Datelike;
use crate::text::{
    all_digits, decimal, digit_value, digits_value, is_digit, lemma_decimal_digits, lemma_decimal_shape,
    lemma_split_three, push_decimal, split, string_of,
};

verus! {

/// The last second that chrono's date-time range holds: 262142-12-31
/// 23:59:59 UTC (`DateTime::<Utc>::MAX_UTC`), in seconds since the Unix
/// epoch.
pub open spec fn last_representable_second() -> int {
    8_210_266_876_799
}

/// The current time in seconds since the Unix epoch, from
/// `chrono::offset::Local::now().timestamp()`. chrono reads the system
/// clock as a duration since the epoch (and panics when the clock is set
/// before it) and builds the date-time with `DateTime::from_timestamp(..)
/// .unwrap()`, which holds only seconds up to `MAX_UTC`; so the result is
/// never negative and never past that second. Which second it is depends on
/// the clock and is not stated.
#[verifier::external_body]
fn local_timestamp() -> (t: i64)
    ensures
        0 <= t <= last_representable_second(),
{
    chrono::offset::Local::now().timestamp()
}

/// The current year in the local time zone, from
/// `chrono::offset::Local::today().year()`. Which year it is depends on the
/// clock and is not stated; chrono represents only years between
/// `(i32::MIN >> 13) + 1` and `(i32::MAX >> 13) - 1`.
#[verifier::external_body]
#[allow(deprecated)]
pub(crate) fn current_year() -> (y: i32)
    ensures
        -262143 <= y <= 262142,
{
    chrono::offset::Local::today().year()
}

/// The two-digit, zero-padded text of a number below 100.
pub open spec fn two_digits(n: nat) -> Seq<char> {
    if n < 10 {
        seq!['0'] + decimal(n)
    } else {
        decimal(n)
    }
}

/// A field of a duration as `HH:MM:SS` writes it: decimal digits that
/// denote the value, exactly two of them when the value is below 100, and no
/// leading zero when there are more.
pub open spec fn padded_field(f: Seq<char>, v: nat) -> bool {
    &&& all_digits(f)
    &&& digits_value(f) == v
    &&& v < 100 ==> f.len() == 2
    &&& f.len() > 2 ==> f[0] != '0'
}

/// A number written with at least two digits is its padded field.
pub proof fn lemma_two_digits(n: nat)
    ensures
        padded_field(two_digits(n), n),
        !two_digits(n).contains(':'),
{
    lemma_decimal_digits(n);
    lemma_decimal_shape(n);
    let f = two_digits(n);
    if n < 10 {
        let z = seq!['0'] + decimal(n);
        assert(z.drop_last() =~= seq!['0']);
        assert(seq!['0'].drop_last() =~= Seq::<char>::empty());
        assert(z.last() == decimal(n)[0]);
        assert(decimal(n).drop_last() =~= Seq::<char>::empty());
        assert(decimal(n).last() == decimal(n)[0]);
        assert(digits_value(decimal(n)) == digits_value(decimal(n).drop_last()) * 10 + digit_value(decimal(n).last()));
        assert(digits_value(seq!['0']) == digits_value(seq!['0'].drop_last()) * 10 + digit_value('0'));
        assert(digits_value(z) == digits_value(z.drop_last()) * 10 + digit_value(z.last()));
        assert(is_digit(decimal(n)[0]));
        assert(all_digits(z)) by {
            assert forall|i: int| 0 <= i < z.len() implies is_digit(#[trigger] z[i]) by {
                if i == 1 {
                    assert(z[1] == decimal(n)[0]);
                }
            }
        }
    }
    if f.contains(':') {
        let k = choose|k: int| 0 <= k < f.len() && f[k] == ':';
        assert(is_digit(f[k]));
    }
}

/// Each field of a duration written as `HH:MM:SS` is the hours, the minutes
/// of the hour or the seconds of the minute, zero-padded to two digits: the
/// text splits at colons into exactly these three padded fields.
pub proof fn lemma_clock_fields(secs: nat)
    ensures
        split(clock_text(secs), ':').len() == 3,
        padded_field(split(clock_text(secs), ':')[0], secs / 3600),
        padded_field(split(clock_text(secs), ':')[1], (secs / 60) % 60),
        padded_field(split(clock_text(secs), ':')[2], secs % 60),
{
    let h = two_digits(secs / 3600);
    let m = two_digits((secs / 60) % 60);
    let s = two_digits(secs % 60);
    lemma_two_digits(secs / 3600);
    lemma_two_digits((secs / 60) % 60);
    lemma_two_digits(secs % 60);
    lemma_split_three(h, m, s, ':');
}

/// A time of day given in seconds since midnight, as `HH:MM:SS`.
pub open spec fn clock_text(secs: nat) -> Seq<char> {
    two_digits(secs / 3600) + seq![':'] + two_digits((secs / 60) % 60) + seq![':'] + two_digits(
        secs % 60,
    )
}

/// The time of day `secs` seconds after midnight written as `%H:%M:%S`, from
/// `chrono::NaiveTime::from_num_seconds_from_midnight(secs, 0).format("%H:%M:%S")`.
/// chrono panics for `secs >= 86400`; `%H`, `%M` and `%S` are the hour, the
/// minute and the second, each zero-padded to two digits.
#[verifier::external_body]
fn naive_time_hms(secs: u32) -> (r: String)
    requires
        secs < 86400,
    ensures
        r@ == clock_text(secs as nat),
{
    chrono::NaiveTime::from_num_seconds_from_midnight(secs, 0).format("%H:%M:%S").to_string()
}

/// The current time in seconds since the Unix epoch: a second that chrono's
/// date-time range holds.
pub fn get_time() -> (t: u64)
    ensures
        t <= last_representable_second(),
{
    let t = local_timestamp();
    t as u64
}

/// Pushes `n` zero-padded to at least two digits.
fn push_two_digits(out: &mut Vec<char>, n: u64)
    ensures
        final(out)@ == old(out)@ + two_digits(n as nat),
{
    if n < 10 {
        out.push('0');
    }
    push_decimal(out, n);
    assert(final(out)@ =~= old(out)@ + two_digits(n as nat));
}

/// A duration written as `HH:MM:SS`: hours, minutes and seconds, each
/// zero-padded to two digits; the hours are not wrapped at a day, so a
/// duration of a day or more shows all its hours.
pub fn format_time(secs: u64) -> (r: String)
    ensures
        r@ == clock_text(secs as nat),
        split(r@, ':').len() == 3,
        padded_field(split(r@, ':')[0], secs as nat / 3600),
        padded_field(split(r@, ':')[1], (secs as nat / 60) % 60),
        padded_field(split(r@, ':')[2], secs as nat % 60),
{
    proof {
        lemma_clock_fields(secs as nat);
    }
    if secs < 86400 {
        naive_time_hms(secs as u32)
    } else {
        let mut out: Vec<char> = Vec::new();
        push_two_digits(&mut out, secs / 3600);
        out.push(':');
        push_two_digits(&mut out, (secs / 60) % 60);
        out.push(':');
        push_two_digits(&mut out, secs % 60);
        assert(out@ =~= clock_text(secs as nat));
        string_of(out.as_slice())
    }
}

} // verus!
