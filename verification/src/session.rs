//! Ending the session.
//!
//! Logging out means asking the compositor to stop: the session manager exits when it does,
//! and the greeter comes back up. The compositor drops its pid in a well-known file for
//! exactly this; the program reads that file and signals the pid. What a pidfile's contents
//! mean, and where the file is, are decided here.

use vstd::prelude::*;

use crate::strings::{chars_of, push_str, string_of, trim, trimmed};

verus! {

/// The compositor's pidfile name, beside its log under the per-user runtime directory.
pub const PID_NAME: &'static str = "wlrix-compositor.pid";

/// Whether `c` is an ASCII digit.
pub open spec fn is_digit(c: char) -> bool {
    '0' <= c <= '9'
}

/// The number a run of ASCII digits writes, in base ten.
pub open spec fn digits_value(s: Seq<char>) -> int
    decreases s.len(),
{
    if s.len() == 0 {
        0
    } else {
        digits_value(s.drop_last()) * 10 + (s.last() as int - '0' as int)
    }
}

/// Whether every character of `s` is an ASCII digit.
pub open spec fn all_digits(s: Seq<char>) -> bool {
    forall|i: int| 0 <= i < s.len() ==> is_digit(#[trigger] s[i])
}

/// The integer `s` writes as `i32::from_str` reads it: an optional `+` or `-`, then one or
/// more ASCII digits, the value in range for an `i32`.
pub open spec fn parse_i32(s: Seq<char>) -> Option<int> {
    let negative = s.len() > 0 && s[0] == '-';
    let signed = s.len() > 0 && (s[0] == '-' || s[0] == '+');
    let digits = if signed {
        s.drop_first()
    } else {
        s
    };
    if digits.len() == 0 || !all_digits(digits) {
        None
    } else {
        let value = if negative {
            -digits_value(digits)
        } else {
            digits_value(digits)
        };
        if i32::MIN <= value <= i32::MAX {
            Some(value)
        } else {
            None
        }
    }
}

/// The pid a pidfile's contents name: the trimmed text as an `i32`, and more than 1, since 0
/// signals the whole process group and 1 is init.
pub open spec fn pid_in(text: Seq<char>) -> Option<i32> {
    match parse_i32(trim(text)) {
        Some(v) => if v > 1 {
            Some(v as i32)
        } else {
            None
        },
        None => None,
    }
}

/// A longer run of digits writes at least as large a number.
proof fn lemma_digits_grow(s: Seq<char>, k: int)
    requires
        0 <= k <= s.len(),
        all_digits(s),
    ensures
        digits_value(s.take(k)) <= digits_value(s),
        0 <= digits_value(s.take(k)),
    decreases s.len() - k,
{
    if k < s.len() {
        lemma_digits_grow(s, k + 1);
        assert(s.take(k + 1).drop_last() =~= s.take(k));
        assert(is_digit(s[k]));
    } else {
        assert(s.take(k) =~= s);
        lemma_digits_nonneg(s);
    }
}

proof fn lemma_digits_nonneg(s: Seq<char>)
    requires
        all_digits(s),
    ensures
        0 <= digits_value(s),
    decreases s.len(),
{
    if s.len() > 0 {
        assert(all_digits(s.drop_last())) by {
            assert forall|i: int| 0 <= i < s.drop_last().len() implies is_digit(
                #[trigger] s.drop_last()[i],
            ) by {
                assert(s.drop_last()[i] == s[i]);
            }
        }
        lemma_digits_nonneg(s.drop_last());
        assert(is_digit(s[s.len() - 1]));
    }
}

/// The pid a pidfile's contents name, if it is one.
pub fn parse_pid(text: &str) -> (r: Option<i32>)
    ensures
        r == pid_in(text@),
{
    let all = chars_of(text);
    let t = trimmed(all.as_slice());
    let negative = t.len() > 0 && t[0] == '-';
    let signed = t.len() > 0 && (t[0] == '-' || t[0] == '+');
    let start: usize = if signed {
        1
    } else {
        0
    };
    let ghost digits = if signed {
        t@.drop_first()
    } else {
        t@
    };
    assert(digits =~= t@.subrange(start as int, t@.len() as int));
    if start >= t.len() {
        return None;
    }
    // Up to one past the largest magnitude an i32 can have; anything beyond is out of range
    // whatever follows.
    let limit: i64 = 0x8000_0001;
    let mut value: i64 = 0;
    let mut i = start;
    while i < t.len()
        invariant
            start <= i <= t.len(),
            t@ == trim(text@),
            signed == (t@.len() > 0 && (t@[0] == '-' || t@[0] == '+')),
            negative == (t@.len() > 0 && t@[0] == '-'),
            start == (if signed { 1usize } else { 0usize }),
            digits == (if signed { t@.drop_first() } else { t@ }),
            digits == t@.subrange(start as int, t@.len() as int),
            all_digits(t@.subrange(start as int, i as int)),
            value == digits_value(t@.subrange(start as int, i as int)),
            limit == 0x8000_0001,
            0 <= value <= limit,
        decreases t.len() - i,
    {
        let c = t[i];
        if !('0' <= c && c <= '9') {
            proof {
                assert(digits[i - start] == c);
                assert(!is_digit(digits[i - start]));
                assert(!all_digits(digits));
            }
            return None;
        }
        proof {
            let before = t@.subrange(start as int, i as int);
            let after = t@.subrange(start as int, i + 1);
            assert(after.drop_last() =~= before);
            assert(all_digits(after)) by {
                assert forall|j: int| 0 <= j < after.len() implies is_digit(#[trigger] after[j]) by {
                    if j < before.len() {
                        assert(after[j] == before[j]);
                    }
                }
            }
        }
        let next = value * 10 + (c as i64 - '0' as i64);
        if next > limit {
            proof {
                let after = t@.subrange(start as int, i + 1);
                let whole = digits;
                let rest_ok = all_digits(whole);
                if rest_ok {
                    assert(whole.take(after.len() as int) =~= after);
                    lemma_digits_grow(whole, after.len() as int);
                }
            }
            return None;
        }
        value = next;
        i = i + 1;
    }
    assert(t@.subrange(start as int, t@.len() as int) == digits);
    let v: i64 = if negative {
        -value
    } else {
        value
    };
    if v > 1 && v <= 0x7fff_ffff {
        Some(v as i32)
    } else {
        None
    }
}

/// Where the pidfile lives: the runtime directory when it is an absolute path, else the
/// temporary directory.
pub open spec fn pidfile_path(runtime_dir: Option<Seq<char>>, temp_dir: Seq<char>) -> Seq<char> {
    let dir = match runtime_dir {
        Some(d) => if d.len() > 0 && d[0] == '/' {
            d
        } else {
            temp_dir
        },
        None => temp_dir,
    };
    crate::session::joined(dir, PID_NAME@)
}

/// A relative `name` added to the path `dir`, with a separator between them unless `dir` is
/// empty or already ends in one, as `Path::join` does.
pub open spec fn joined(dir: Seq<char>, name: Seq<char>) -> Seq<char> {
    if dir.len() == 0 || dir.last() == '/' {
        dir + name
    } else {
        dir + seq!['/'] + name
    }
}

/// `name` added to `dir`, as [`joined`] says.
pub fn join_path(dir: &str, name: &str) -> (r: String)
    ensures
        r@ == joined(dir@, name@),
{
    let d = chars_of(dir);
    let mut r = string_of(d.as_slice());
    if d.len() > 0 && d[d.len() - 1] != '/' {
        r.push('/');
    }
    push_str(&mut r, name);
    r
}

/// The pidfile's path, given `$XDG_RUNTIME_DIR` as the program read it and the system's
/// temporary directory.
pub fn pidfile_in(runtime_dir: Option<&str>, temp_dir: &str) -> (r: String)
    ensures
        r@ == pidfile_path(crate::locale::str_opt_view(runtime_dir), temp_dir@),
{
    let dir = match runtime_dir {
        Some(d) => {
            let chars = chars_of(d);
            if chars.len() > 0 && chars[0] == '/' {
                d
            } else {
                temp_dir
            }
        },
        None => temp_dir,
    };
    join_path(dir, PID_NAME)
}

} // verus!
