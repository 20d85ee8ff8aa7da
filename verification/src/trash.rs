//! Moving things to the trash, per the freedesktop Trash specification.
//!
//! "Remove" on the desktop menu does **not** delete: trashing is recoverable from any file
//! manager, and it is what IRIX's dumpster was. Two files per item, as the specification
//! requires: the thing itself moves to `Trash/files/`, and a `Trash/info/<name>.trashinfo`
//! records where it came from and when, so a file manager can put it back.
//!
//! The program does the moving and asks the disk which names are free; the names to try, the
//! record's text and the calendar arithmetic behind its date are decided here.

use vstd::arithmetic::div_mod::lemma_fundamental_div_mod_converse;
use vstd::prelude::*;

use crate::strings::{chars_of, push_all, push_str, rfind_before, slice_of, string_of};
use crate::xdg::{join, path_join, set_value};
use vstd::string::StringSliceAdditionalSpecFns;

verus! {

/// Where the trash lives: `$XDG_DATA_HOME/Trash`, or `~/.local/share/Trash` as the
/// specification says to assume.
pub open spec fn trash_path(data_home: Option<Seq<char>>, home: Option<Seq<char>>) -> Option<
    Seq<char>,
> {
    match set_value(data_home) {
        Some(d) => Some(path_join(d, "Trash"@)),
        None => match set_value(home) {
            Some(h) => Some(path_join(h, ".local/share/Trash"@)),
            None => None,
        },
    }
}

/// Where the trash lives, given `$XDG_DATA_HOME` and `$HOME` as the program read them.
pub fn trash_dir_from(data_home: Option<&str>, home: Option<&str>) -> (r: Option<String>)
    ensures
        crate::strings::opt_view(r) == trash_path(
            crate::locale::str_opt_view(data_home),
            crate::locale::str_opt_view(home),
        ),
{
    match data_home {
        Some(d) => {
            if !d.is_empty() {
                let dc = chars_of(d);
                let t = chars_of("Trash");
                return Some(string_of(join(dc.as_slice(), t.as_slice()).as_slice()));
            }
        },
        None => {},
    }
    match home {
        Some(h) => {
            if !h.is_empty() {
                let hc = chars_of(h);
                let t = chars_of(".local/share/Trash");
                return Some(string_of(join(hc.as_slice(), t.as_slice()).as_slice()));
            }
            None
        },
        None => None,
    }
}

/// The decimal digit for `d`.
pub open spec fn digit(d: int) -> char {
    (d + 48) as char
}

/// `n` written in decimal.
pub open spec fn decimal(n: nat) -> Seq<char>
    decreases n,
{
    if n < 10 {
        seq![digit(n as int)]
    } else {
        decimal(n / 10).push(digit((n % 10) as int))
    }
}

/// `s` with zeros in front, to at least `width` characters.
pub open spec fn zero_padded(s: Seq<char>, width: nat) -> Seq<char> {
    if s.len() >= width {
        s
    } else {
        Seq::new((width - s.len()) as nat, |i: int| '0') + s
    }
}

/// Append `n` in decimal.
fn push_decimal(out: &mut String, n: u64)
    ensures
        final(out)@ == old(out)@ + decimal(n as nat),
    decreases n,
{
    if n >= 10 {
        push_decimal(out, n / 10);
    }
    let d = (n % 10) as u8;
    let c = (48 + d) as char;
    proof {
        assert(c == digit((n % 10) as int));
    }
    out.push(c);
}

/// `n` in decimal, with zeros in front to at least `width` characters.
fn push_padded(out: &mut String, n: u64, width: usize)
    ensures
        final(out)@ == old(out)@ + zero_padded(decimal(n as nat), width as nat),
{
    let mut digits = String::new();
    push_decimal(&mut digits, n);
    let dc = chars_of(digits.as_str());
    let ghost before = out@;
    let mut k: usize = dc.len();
    while k < width
        invariant
            dc.len() <= k <= width || (k == dc.len() && k >= width),
            out@ == before + Seq::new((k - dc.len()) as nat, |i: int| '0'),
        decreases width - k,
    {
        let ghost prev = out@;
        out.push('0');
        assert(out@ =~= before + Seq::new((k + 1 - dc.len()) as nat, |i: int| '0'));
        k = k + 1;
    }
    push_all(out, dc.as_slice());
    proof {
        if dc@.len() >= width {
            assert(Seq::new(0nat, |i: int| '0') =~= Seq::<char>::empty());
            assert(out@ =~= before + dc@);
        } else {
            assert(out@ =~= before + (Seq::new((width - dc@.len()) as nat, |i: int| '0') + dc@));
        }
    }
}

/// The calendar date, as year, month and day, of `days` days after 1970-01-01 in the
/// proleptic Gregorian calendar: Howard Hinnant's `civil_from_days`.
pub open spec fn civil(days: int) -> (int, int, int) {
    let z = days + 719_468;
    let era = z / 146_097;
    let doe = z % 146_097;
    let yoe = (doe - doe / 1460 + doe / 36_524 - doe / 146_096) / 365;
    let year = yoe + era * 400;
    let doy = doe - (365 * yoe + yoe / 4 - yoe / 100);
    let mp = (5 * doy + 2) / 153;
    let day = doy - (153 * mp + 2) / 5 + 1;
    let month = if mp < 10 {
        mp + 3
    } else {
        mp - 9
    };
    (year + if month <= 2 {
        1int
    } else {
        0int
    }, month, day)
}

/// Days since the epoch to a calendar date: the year, and the month and day as the
/// calculation leaves them, cast to `u32`.
pub fn civil_from_days(days: i64) -> (r: (i64, u32, u32))
    requires
        days <= i64::MAX - 719_468,
    ensures
        r.0 == civil(days as int).0,
        r.1 == civil(days as int).1 as u32,
        r.2 == civil(days as int).2 as u32,
{
    let z = days + 719_468;
    let era = z.checked_div_euclid(146_097).unwrap();
    let doe_signed = z.checked_rem_euclid(146_097).unwrap();
    let doe = doe_signed as u64;
    assert(doe - doe / 1460 + doe / 36_524 - doe / 146_096 <= 146_100) by (nonlinear_arith)
        requires
            doe < 146_097,
    ;
    let yoe = (doe - doe / 1460 + doe / 36_524 - doe / 146_096) / 365;
    assert(yoe <= 400) by (nonlinear_arith)
        requires
            yoe == (doe - doe / 1460 + doe / 36_524 - doe / 146_096) / 365,
            doe - doe / 1460 + doe / 36_524 - doe / 146_096 <= 146_100,
    ;
    let doy = doe as i64 - (365 * yoe + yoe / 4 - yoe / 100) as i64;
    let mp = (5 * doy + 2).checked_div_euclid(153).unwrap();
    assert(-10_000 <= mp <= 10_000) by (nonlinear_arith)
        requires
            mp == (5 * doy + 2) / 153,
            -200_000 <= doy <= 200_000,
    ;
    let sub = (153 * mp + 2).checked_div_euclid(5).unwrap();
    let day = doy - sub + 1;
    let month = if mp < 10 {
        mp + 3
    } else {
        mp - 9
    };
    proof {
        vstd::arithmetic::div_mod::lemma_fundamental_div_mod(z as int, 146_097);
    }
    assert(-0x7fff_ffff_ffff_0000 <= era * 400 <= 0x7fff_ffff_ffff_0000) by (nonlinear_arith)
        requires
            z == 146_097 * era + doe_signed,
            0 <= doe_signed < 146_097,
            i64::MIN + 719_468 <= z <= i64::MAX,
    ;
    let year = yoe as i64 + era * 400;
    let bump: i64 = if month <= 2 {
        1
    } else {
        0
    };
    (year + bump, month as u32, day as u32)
}

/// The specification's `YYYY-MM-DDThh:mm:ss` for `seconds` after the epoch, in UTC.
pub open spec fn timestamp_text(seconds: nat) -> Seq<char> {
    let days = seconds / 86_400;
    let rest = seconds % 86_400;
    let (year, month, day) = civil(days as int);
    zero_padded(decimal(year as nat), 4) + seq!['-'] + zero_padded(decimal((month as u32) as nat), 2)
        + seq!['-'] + zero_padded(decimal((day as u32) as nat), 2) + seq!['T'] + zero_padded(
        decimal(rest / 3600),
        2,
    ) + seq![':'] + zero_padded(decimal((rest % 3600) / 60), 2) + seq![':'] + zero_padded(
        decimal(rest % 60),
        2,
    )
}

/// The deletion date for a moment `seconds` after the epoch, as the record writes it.
///
/// UTC, which the specification permits: it asks for local time, but every reader treats the
/// field as informational.
pub fn timestamp(seconds: u64) -> (r: String)
    ensures
        r@ == timestamp_text(seconds as nat),
{
    let days = seconds / 86_400;
    let rest = seconds % 86_400;
    let (year, month, day) = civil_from_days(days as i64);
    proof {
        lemma_civil_nonnegative(days as int);
    }
    assert(year >= 0);
    let mut out = String::new();
    push_padded(&mut out, year as u64, 4);
    out.push('-');
    push_padded(&mut out, month as u64, 2);
    out.push('-');
    push_padded(&mut out, day as u64, 2);
    out.push('T');
    push_padded(&mut out, rest / 3600, 2);
    out.push(':');
    push_padded(&mut out, (rest % 3600) / 60, 2);
    out.push(':');
    push_padded(&mut out, rest % 60, 2);
    out
}

/// From the epoch on, the year is at least 1600.
proof fn lemma_civil_nonnegative(days: int)
    requires
        0 <= days,
    ensures
        civil(days).0 >= 1600,
{
    let z = days + 719_468;
    let era = z / 146_097;
    let doe = z % 146_097;
    assert(era >= 4) by (nonlinear_arith)
        requires
            z >= 719_468,
            era == z / 146_097,
    ;
    assert(0 <= doe < 146_097);
    assert(doe - doe / 1460 + doe / 36_524 - doe / 146_096 >= 0) by (nonlinear_arith)
        requires
            0 <= doe,
    ;
}

/// Whether the byte is left as it is in a percent-encoded path: the unreserved set, and `/`.
pub open spec fn unreserved(b: u8) -> bool {
    (65 <= b <= 90) || (97 <= b <= 122) || (48 <= b <= 57) || b == 45 || b == 95 || b == 46 || b
        == 126 || b == 47
}

/// The uppercase hexadecimal digit for `n`.
pub open spec fn hex_digit(n: int) -> char {
    if n < 10 {
        (n + 48) as char
    } else {
        (n + 55) as char
    }
}

/// One byte of a path, percent-encoded.
pub open spec fn encode_byte(b: u8) -> Seq<char> {
    if unreserved(b) {
        seq![b as char]
    } else {
        seq!['%', hex_digit((b / 16) as int), hex_digit((b % 16) as int)]
    }
}

/// The bytes of a path, percent-encoded for the record's `Path=` field.
pub open spec fn percent(bytes: Seq<u8>) -> Seq<char>
    decreases bytes.len(),
{
    if bytes.len() == 0 {
        seq![]
    } else {
        percent(bytes.drop_last()) + encode_byte(bytes.last())
    }
}

fn hex(n: u8) -> (c: char)
    requires
        n < 16,
    ensures
        c == hex_digit(n as int),
{
    if n < 10 {
        (48 + n) as char
    } else {
        (55 + n) as char
    }
}

/// Percent-encode a path for the `Path=` field, as the specification requires: every byte of
/// its UTF-8 outside the unreserved set is escaped, except `/`.
pub fn percent_encode(path: &str) -> (r: String)
    ensures
        r@ == percent(path.spec_bytes()),
{
    let bytes = path.as_bytes();
    let mut out = String::new();
    let mut i: usize = 0;
    assert(bytes@.subrange(0, 0) =~= Seq::<u8>::empty());
    while i < bytes.len()
        invariant
            i <= bytes.len(),
            bytes@ == path.spec_bytes(),
            out@ == percent(bytes@.subrange(0, i as int)),
        decreases bytes.len() - i,
    {
        let b = bytes[i];
        assert(bytes@.subrange(0, i + 1).drop_last() =~= bytes@.subrange(0, i as int));
        assert(bytes@.subrange(0, i + 1).last() == b);
        let keep = (65 <= b && b <= 90) || (97 <= b && b <= 122) || (48 <= b && b <= 57) || b == 45
            || b == 95 || b == 46 || b == 126 || b == 47;
        if keep {
            let c = b as char;
            assert(c == b as char);
            out.push(c);
            assert(out@ =~= percent(bytes@.subrange(0, i + 1)));
        } else {
            out.push('%');
            out.push(hex(b / 16));
            out.push(hex(b % 16));
            assert(out@ =~= percent(bytes@.subrange(0, i + 1)));
        }
        i = i + 1;
    }
    assert(bytes@.subrange(0, bytes@.len() as int) =~= bytes@);
    out
}

/// The `.trashinfo` body: where it came from, and when it went.
pub open spec fn trashinfo_text(path_bytes: Seq<u8>, date: Seq<char>) -> Seq<char> {
    "[Trash Info]\nPath="@ + percent(path_bytes) + "\nDeletionDate="@ + date + "\n"@
}

/// The `.trashinfo` body for `path`, deleted at `date`.
pub fn trashinfo(path: &str, date: &str) -> (r: String)
    ensures
        r@ == trashinfo_text(path.spec_bytes(), date@),
{
    let mut out = String::new();
    push_str(&mut out, "[Trash Info]\nPath=");
    let encoded = percent_encode(path);
    push_str(&mut out, encoded.as_str());
    push_str(&mut out, "\nDeletionDate=");
    push_str(&mut out, date);
    push_str(&mut out, "\n");
    out
}

/// The name to try on attempt `attempt` at finding a free one for `name`.
///
/// The first attempt is the name itself; after that a number goes in, counting from 2:
/// `notes.txt` becomes `notes.2.txt`, keeping the extension where a file manager and the
/// user both expect it, and a name with no extension gets the number at the end.
pub open spec fn candidate(name: Seq<char>, attempt: nat) -> Seq<char> {
    if attempt == 0 {
        name
    } else {
        let number = decimal(attempt + 1);
        match rfind_before(name, '.', name.len() as int) {
            Some(k) => if k > 0 {
                name.subrange(0, k) + seq!['.'] + number + seq!['.'] + name.subrange(
                    k + 1,
                    name.len() as int,
                )
            } else {
                name + seq!['.'] + number
            },
            None => name + seq!['.'] + number,
        }
    }
}

/// The name to try on attempt `attempt` at finding a free one for `name`.
pub fn candidate_name(name: &str, attempt: u32) -> (r: String)
    ensures
        r@ == candidate(name@, attempt as nat),
{
    let chars = chars_of(name);
    if attempt == 0 {
        return string_of(chars.as_slice());
    }
    let number = attempt as u64 + 1;
    let mut j = chars.len();
    while j > 0 && chars[j - 1] != '.'
        invariant
            j <= chars.len(),
            chars@ == name@,
            rfind_before(chars@, '.', j as int) == rfind_before(chars@, '.', chars@.len() as int),
        decreases j,
    {
        j = j - 1;
    }
    if j > 1 {
        let k = j - 1;
        let mut out = string_of(slice_of(chars.as_slice(), 0, k).as_slice());
        out.push('.');
        push_decimal(&mut out, number);
        out.push('.');
        push_all(&mut out, slice_of(chars.as_slice(), k + 1, chars.len()).as_slice());
        out
    } else {
        let mut out = string_of(chars.as_slice());
        out.push('.');
        push_decimal(&mut out, number);
        out
    }
}

/// The record's file name for a trashed file's name.
pub fn record_name(candidate: &str) -> (r: String)
    ensures
        r@ == candidate@ + ".trashinfo"@,
{
    let mut out = String::new();
    push_str(&mut out, candidate);
    push_str(&mut out, ".trashinfo");
    out
}

/// Every day of a 400-year era falls on one day of its March-based year.
///
/// Taken apart the way the calendar is built: the era's centuries of 36 524 days, their
/// four-year cycles of 1 461, and the years of 365 within a cycle.
proof fn lemma_day_of_year(doe: int)
    requires
        0 <= doe < 146_097,
    ensures
        ({
            let yoe = (doe - doe / 1460 + doe / 36_524 - doe / 146_096) / 365;
            let doy = doe - (365 * yoe + yoe / 4 - yoe / 100);
            &&& 0 <= yoe <= 399
            &&& 0 <= doy <= 365
            &&& doy == 365 ==> (yoe + 1) % 4 == 0 && ((yoe + 1) % 100 != 0 || (yoe + 1) % 400 == 0)
        }),
{
    if doe == 146_096 {
        lemma_fundamental_div_mod_converse(doe, 1460, 100, 96);
        lemma_fundamental_div_mod_converse(doe, 36_524, 4, 0);
        lemma_fundamental_div_mod_converse(doe, 146_096, 1, 0);
        lemma_fundamental_div_mod_converse(145_999, 365, 399, 364);
        lemma_fundamental_div_mod_converse(399, 4, 99, 3);
        lemma_fundamental_div_mod_converse(399, 100, 3, 99);
        lemma_fundamental_div_mod_converse(400, 400, 1, 0);
    } else {
        crate::layout::lemma_div_mod(doe, 36_524);
        let b = doe / 36_524;
        let r = doe % 36_524;
        assert(0 <= b <= 3);
        crate::layout::lemma_div_mod(r, 1461);
        let k = r / 1461;
        let s = r % 1461;
        assert(0 <= k <= 24);
        let delta: int = if 24 * b + k + s >= 1460 {
            1
        } else {
            0
        };
        lemma_fundamental_div_mod_converse(doe, 1460, 25 * b + k + delta, 24 * b + k + s - 1460 * delta);
        lemma_fundamental_div_mod_converse(doe, 146_096, 0, doe);
        let t = doe - (25 * b + k + delta) + b;
        assert(t == 36_500 * b + 1460 * k + s - delta);
        assert(s - delta >= 0);
        crate::layout::lemma_div_mod(s - delta, 365);
        let j = (s - delta) / 365;
        assert(0 <= j <= 3);
        lemma_fundamental_div_mod_converse(t, 365, 100 * b + 4 * k + j, (s - delta) % 365);
        let yoe = 100 * b + 4 * k + j;
        lemma_fundamental_div_mod_converse(yoe, 4, 25 * b + k, j);
        lemma_fundamental_div_mod_converse(yoe, 100, b, 4 * k + j);
        assert(doe - (365 * yoe + (25 * b + k) - b) == s - 365 * j);
        if s - 365 * j == 365 {
            assert(j == 3 && s == 1460 && delta == 1);
            assert(k < 24);
            lemma_fundamental_div_mod_converse(yoe + 1, 4, 25 * b + k + 1, 0);
            lemma_fundamental_div_mod_converse(yoe + 1, 100, b, 4 * k + 4);
        }
    }
}

/// Whether a year of the Gregorian calendar has a 29th of February.
pub open spec fn is_leap(year: int) -> bool {
    (year % 4 == 0 && year % 100 != 0) || year % 400 == 0
}

/// How many days a month of a year has.
pub open spec fn month_days(year: int, month: int) -> int {
    if month == 2 {
        if is_leap(year) {
            29
        } else {
            28
        }
    } else if month == 4 || month == 6 || month == 9 || month == 11 {
        30
    } else {
        31
    }
}

/// Where a day of a March-based year falls: the month counted from March, the day of that
/// month, and how many days of the year come before that month.
proof fn lemma_month_of(doy: int)
    requires
        0 <= doy <= 365,
    ensures
        ({
            let mp = (5 * doy + 2) / 153;
            let start = (153 * mp + 2) / 5;
            let day = doy - start + 1;
            &&& 0 <= mp <= 11
            &&& 1 <= day
            &&& (mp == 1 || mp == 3 || mp == 6 || mp == 8) ==> day <= 30
            &&& mp == 11 ==> day <= 28 || (day == 29 && doy == 365)
            &&& day <= 31
            &&& start == if mp == 0 {
                0int
            } else if mp == 1 {
                31
            } else if mp == 2 {
                61
            } else if mp == 3 {
                92
            } else if mp == 4 {
                122
            } else if mp == 5 {
                153
            } else if mp == 6 {
                184
            } else if mp == 7 {
                214
            } else if mp == 8 {
                245
            } else if mp == 9 {
                275
            } else if mp == 10 {
                306
            } else {
                337
            }
        }),
{
    crate::layout::lemma_div_mod(5 * doy + 2, 153);
    let mp = (5 * doy + 2) / 153;
    assert(0 <= mp <= 11);
    crate::layout::lemma_div_mod(153 * mp + 2, 5);
    crate::layout::lemma_div_mod(153 * (mp + 1) + 2, 5);
}

/// Whatever the day, the calendar gives a month of the year and a day that month has.
pub proof fn law_civil_is_a_date(days: int)
    ensures
        1 <= civil(days).1 <= 12,
        1 <= civil(days).2 <= month_days(civil(days).0, civil(days).1),
{
    let z = days + 719_468;
    let era = z / 146_097;
    let doe = z % 146_097;
    crate::layout::lemma_div_mod(z, 146_097);
    lemma_day_of_year(doe);
    let yoe = (doe - doe / 1460 + doe / 36_524 - doe / 146_096) / 365;
    let doy = doe - (365 * yoe + yoe / 4 - yoe / 100);
    lemma_month_of(doy);
    if doy == 365 {
        lemma_leaps_era(yoe + 1, era);
        assert(yoe + era * 400 + 1 == yoe + 1 + 400 * era);
    }
}

/// How many leap years come before year `y`, counted from year 1 (negatively before it).
pub open spec fn leaps_before(y: int) -> int {
    (y - 1) / 4 - (y - 1) / 100 + (y - 1) / 400
}

/// The days before the first of January of year `y`, from a fixed origin.
pub open spec fn days_before_year(y: int) -> int {
    365 * y + leaps_before(y)
}

/// The days of year `y` before the first of month `m`.
pub open spec fn days_before_month(y: int, m: int) -> int {
    let common: int = if m == 1 {
        0
    } else if m == 2 {
        31
    } else if m == 3 {
        59
    } else if m == 4 {
        90
    } else if m == 5 {
        120
    } else if m == 6 {
        151
    } else if m == 7 {
        181
    } else if m == 8 {
        212
    } else if m == 9 {
        243
    } else if m == 10 {
        273
    } else if m == 11 {
        304
    } else {
        334
    };
    common + if m > 2 && is_leap(y) {
        1int
    } else {
        0int
    }
}

/// The days from 1970-01-01 to a date, counting the calendar out year by year and month by
/// month.
pub open spec fn days_from_civil(y: int, m: int, d: int) -> int {
    days_before_year(y) - days_before_year(1970) + days_before_month(y, m) + d - 1
}

/// Adding `k` whole divisors moves the quotient by `k` and leaves the remainder.
proof fn lemma_shift_div(x: int, d: int, k: int)
    requires
        d > 0,
    ensures
        (x + k * d) / d == x / d + k,
        (x + k * d) % d == x % d,
{
    crate::layout::lemma_div_mod(x, d);
    assert(x + k * d == (x / d + k) * d + x % d) by (nonlinear_arith)
        requires
            x == d * (x / d) + x % d,
    ;
    lemma_fundamental_div_mod_converse(x + k * d, d, x / d + k, x % d);
}

/// One more moves the quotient on exactly when it lands on a multiple.
proof fn lemma_floor_step(x: int, d: int)
    requires
        d > 0,
    ensures
        (x + 1) / d == x / d + if (x + 1) % d == 0 {
            1int
        } else {
            0int
        },
{
    crate::layout::lemma_div_mod(x, d);
    let q = x / d;
    let r = x % d;
    if r < d - 1 {
        assert(x + 1 == q * d + (r + 1)) by (nonlinear_arith)
            requires
                x == d * q + r,
        ;
        lemma_fundamental_div_mod_converse(x + 1, d, q, r + 1);
    } else {
        assert(x + 1 == (q + 1) * d + 0) by (nonlinear_arith)
            requires
                x == d * q + r,
                r == d - 1,
        ;
        lemma_fundamental_div_mod_converse(x + 1, d, q + 1, 0);
    }
}

/// A year of leap days is one more leap day before the next year.
proof fn lemma_leaps_step(y: int)
    ensures
        leaps_before(y + 1) == leaps_before(y) + if is_leap(y) {
            1int
        } else {
            0int
        },
{
    lemma_floor_step(y - 1, 4);
    lemma_floor_step(y - 1, 100);
    lemma_floor_step(y - 1, 400);
    crate::layout::lemma_div_mod(y, 100);
    crate::layout::lemma_div_mod(y, 400);
    if y % 100 == 0 {
        lemma_shift_div(0, 4, 25 * (y / 100));
        assert(y == 0 + (25 * (y / 100)) * 4) by (nonlinear_arith)
            requires
                y == 100 * (y / 100),
        ;
    }
    if y % 400 == 0 {
        lemma_shift_div(0, 100, 4 * (y / 400));
        assert(y == 0 + (4 * (y / 400)) * 100) by (nonlinear_arith)
            requires
                y == 400 * (y / 400),
        ;
    }
}

/// Four hundred years more is 97 leap days more, and the same leap years.
proof fn lemma_leaps_era(x: int, era: int)
    ensures
        leaps_before(x + 400 * era) == leaps_before(x) + 97 * era,
        is_leap(x + 400 * era) == is_leap(x),
{
    lemma_shift_div(x - 1, 4, 100 * era);
    lemma_shift_div(x - 1, 100, 4 * era);
    lemma_shift_div(x - 1, 400, era);
    lemma_shift_div(x, 4, 100 * era);
    lemma_shift_div(x, 100, 4 * era);
    lemma_shift_div(x, 400, era);
    assert(100 * era * 4 == 400 * era && 4 * era * 100 == 400 * era) by (nonlinear_arith);
}

/// Counting the calendar out from what [`civil`] gives lands back on the day it was given:
/// `civil` is the calendar, not an approximation of it.
pub proof fn law_civil_counts_days(days: int)
    ensures
        days_from_civil(civil(days).0, civil(days).1, civil(days).2) == days,
{
    let z = days + 719_468;
    let era = z / 146_097;
    let doe = z % 146_097;
    crate::layout::lemma_div_mod(z, 146_097);
    lemma_day_of_year(doe);
    let yoe = (doe - doe / 1460 + doe / 36_524 - doe / 146_096) / 365;
    let doy = doe - (365 * yoe + yoe / 4 - yoe / 100);
    lemma_month_of(doy);
    let mp = (5 * doy + 2) / 153;
    let y0 = yoe + era * 400;
    lemma_leaps_era(yoe, era);
    lemma_leaps_era(yoe + 1, era);
    lemma_leaps_step(y0);
    lemma_leaps_step(yoe);
    lemma_fundamental_div_mod_converse(yoe, 400, 0, yoe);
    assert(leaps_before(yoe + 1) == yoe / 4 - yoe / 100);
    assert(days_before_year(y0) + 59 + (if is_leap(y0) { 1int } else { 0int }) == z - doy + 59);
    assert(days_before_year(1970) == 719_527);
    if mp < 10 {
        assert(days_before_month(y0, mp + 3) == 59 + (153 * mp + 2) / 5 + if is_leap(y0) {
            1int
        } else {
            0int
        });
    } else {
        assert(days_before_year(y0 + 1) == days_before_year(y0) + 365 + if is_leap(y0) {
            1int
        } else {
            0int
        });
        assert(days_before_month(y0 + 1, mp - 9) == (153 * mp + 2) / 5 - 306);
    }
}

/// A digit's character names that digit alone.
proof fn lemma_digit_injective(a: int, b: int)
    requires
        0 <= a < 10,
        0 <= b < 10,
        digit(a) == digit(b),
    ensures
        a == b,
{
    assert(digit(a) as int == a + 48);
    assert(digit(b) as int == b + 48);
}

/// A number in decimal is at least one digit, and two digits from ten on.
proof fn lemma_decimal_len(n: nat)
    ensures
        decimal(n).len() >= 1,
        n >= 10 ==> decimal(n).len() >= 2,
    decreases n,
{
    if n >= 10 {
        lemma_decimal_len(n / 10);
    }
}

/// Two numbers written the same in decimal are the same number.
proof fn lemma_decimal_injective(n: nat, m: nat)
    requires
        decimal(n) == decimal(m),
    ensures
        n == m,
    decreases n,
{
    lemma_decimal_len(n);
    lemma_decimal_len(m);
    if n < 10 && m < 10 {
        assert(decimal(n) == seq![digit(n as int)]);
        assert(decimal(m) == seq![digit(m as int)]);
        assert(decimal(n)[0] == decimal(m)[0]);
        assert(digit(n as int) == decimal(n)[0]);
        assert(digit(m as int) == decimal(m)[0]);
        lemma_digit_injective(n as int, m as int);
    } else if n >= 10 && m >= 10 {
        assert(decimal(n).drop_last() =~= decimal(n / 10));
        assert(decimal(m).drop_last() =~= decimal(m / 10));
        assert(decimal(n) == decimal(n / 10).push(digit((n % 10) as int)));
        assert(decimal(m) == decimal(m / 10).push(digit((m % 10) as int)));
        assert(decimal(n).last() == decimal(m).last());
        assert(digit((n % 10) as int) == decimal(n).last());
        assert(digit((m % 10) as int) == decimal(m).last());
        lemma_digit_injective((n % 10) as int, (m % 10) as int);
        lemma_decimal_injective(n / 10, m / 10);
    }
}

/// Where `rfind_before` finds something, it is before `j`.
proof fn lemma_rfind_in_range(s: Seq<char>, c: char, j: int)
    ensures
        rfind_before(s, c, j) matches Some(k) ==> 0 <= k < j && j <= s.len(),
    decreases j,
{
    if 0 < j <= s.len() && s[j - 1] != c {
        lemma_rfind_in_range(s, c, j - 1);
    }
}

/// The number a later attempt puts into the name, and where it stands: after the stem and a
/// dot when the name has an extension, after the whole name and a dot when it has none.
pub open spec fn number_at(name: Seq<char>) -> int {
    match rfind_before(name, '.', name.len() as int) {
        Some(k) => if k > 0 {
            k + 1
        } else {
            name.len() + 1int
        },
        None => name.len() + 1int,
    }
}

/// Every attempt at a free name for `name` tries a different name: the first is the name
/// itself, and attempt `n` after it carries the number `n + 1` -- so however many files of
/// one name are already in the trash, some attempt is free. Each later attempt is the name
/// with a dot and that number put in, and nothing else changed in length.
pub proof fn law_each_attempt_is_a_new_name(name: Seq<char>, a: nat, b: nat)
    ensures
        candidate(name, 0) == name,
        a >= 1 ==> candidate(name, a).len() == name.len() + 1 + decimal(a + 1).len(),
        a >= 1 ==> candidate(name, a).subrange(
            number_at(name),
            number_at(name) + decimal(a + 1).len(),
        ) == decimal(a + 1),
        candidate(name, a) == candidate(name, b) ==> a == b,
{
    lemma_rfind_in_range(name, '.', name.len() as int);
    lemma_decimal_len(a + 1);
    lemma_decimal_len(b + 1);
    let p = number_at(name);
    if a >= 1 {
        let d = decimal(a + 1);
        assert(candidate(name, a).subrange(p, p + d.len()) =~= d);
    }
    if b >= 1 {
        let d = decimal(b + 1);
        assert(candidate(name, b).subrange(p, p + d.len()) =~= d);
    }
    if candidate(name, a) == candidate(name, b) && a != b {
        if a >= 1 && b >= 1 {
            let da = decimal(a + 1);
            let db = decimal(b + 1);
            assert(da.len() == db.len());
            assert(da =~= db);
            lemma_decimal_injective(a + 1, b + 1);
        }
    }
}

} // verus!
