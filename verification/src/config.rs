//! Parsing of the service address configuration: a string of the form
//! `a.b.c.d:port` becomes four octets and a port, or nothing when the
//! string does not have exactly that shape.

use vstd::prelude::*;
use vstd::string::StrSliceExecFns;

verus! {

pub open spec fn is_digit(c: char) -> bool {
    '0' <= c && c <= '9'
}

pub open spec fn digit_val(c: char) -> int {
    c as int - '0' as int
}

pub open spec fn all_digits(s: Seq<char>) -> bool {
    forall|i: int| 0 <= i < s.len() ==> is_digit(#[trigger] s[i])
}

/// The number the digit characters of `s` spell.
pub open spec fn digits_val(s: Seq<char>) -> int
    decreases s.len(),
{
    if s.len() == 0 {
        0
    } else {
        digits_val(s.drop_last()) * 10 + digit_val(s.last())
    }
}

/// The first position at or after `from` that does not hold a digit
/// (the length of the digit run starting at `from`).
pub open spec fn digit_run(s: Seq<char>, from: int) -> int
    decreases s.len() - from,
    when 0 <= from <= s.len()
{
    if from >= s.len() {
        from
    } else if is_digit(s[from]) {
        digit_run(s, from + 1)
    } else {
        from
    }
}

/// The deterministic parse of an `a.b.c.d:port` configuration string:
/// five non-empty digit runs joined by three dots and one colon, the
/// octets at most 255, the port at most 65535.
pub open spec fn parse_config(s: Seq<char>) -> Option<([u8; 4], u16)> {
    let p1 = digit_run(s, 0);
    let p2 = digit_run(s, p1 + 1);
    let p3 = digit_run(s, p2 + 1);
    let q = digit_run(s, p3 + 1);
    let e = digit_run(s, q + 1);
    if 0 < p1 < s.len() && s[p1] == '.' && p1 + 1 < p2 < s.len() && s[p2] == '.' && p2 + 1 < p3
        < s.len() && s[p3] == '.' && p3 + 1 < q < s.len() && s[q] == ':' && q + 1 < e && e
        == s.len() && digits_val(s.subrange(0, p1)) <= 255 && digits_val(
        s.subrange(p1 + 1, p2),
    ) <= 255 && digits_val(s.subrange(p2 + 1, p3)) <= 255 && digits_val(s.subrange(p3 + 1, q))
        <= 255 && digits_val(s.subrange(q + 1, e)) <= 65535 {
        Some(
            (
                [
                    digits_val(s.subrange(0, p1)) as u8,
                    digits_val(s.subrange(p1 + 1, p2)) as u8,
                    digits_val(s.subrange(p2 + 1, p3)) as u8,
                    digits_val(s.subrange(p3 + 1, q)) as u8,
                ],
                digits_val(s.subrange(q + 1, e)) as u16,
            ),
        )
    } else {
        None
    }
}

/// Digit strings spell non-negative, prefix-monotone numbers.
proof fn lemma_digits_val_bounds(s: Seq<char>)
    requires
        all_digits(s),
    ensures
        digits_val(s) >= 0,
        forall|j: int| 0 <= j <= s.len() ==> digits_val(#[trigger] s.take(j)) <= digits_val(s),
    decreases s.len(),
{
    if s.len() > 0 {
        assert(all_digits(s.drop_last())) by {
            assert(forall|i: int|
                0 <= i < s.drop_last().len() ==> (#[trigger] s.drop_last()[i]) == s[i]);
        }
        lemma_digits_val_bounds(s.drop_last());
        assert(is_digit(s.last())) by {
            assert(s[s.len() - 1] == s.last());
        }
        assert forall|j: int|
            0 <= j <= s.len() implies digits_val(#[trigger] s.take(j)) <= digits_val(s) by {
            if j == s.len() {
                assert(s.take(j) =~= s);
            } else {
                assert(s.take(j) =~= s.drop_last().take(j));
            }
        }
    }
}

proof fn lemma_digits_val_step(s: Seq<char>, j: int)
    requires
        0 <= j < s.len(),
    ensures
        digits_val(s.take(j + 1)) == digits_val(s.take(j)) * 10 + digit_val(s[j]),
{
    assert(s.take(j + 1).drop_last() =~= s.take(j));
    assert(s.take(j + 1).last() == s[j]);
}

/// First non-digit position at or after `from`, by scanning.
#[verifier::loop_isolation(false)]
fn scan_digit_run(s: &str, n: usize, from: usize) -> (r: usize)
    requires
        n == s@.len(),
        from <= n,
    ensures
        r == digit_run(s@, from as int),
        from <= r <= n,
        all_digits(s@.subrange(from as int, r as int)),
        r < n ==> !is_digit(s@[r as int]),
{
    let mut i: usize = from;
    while i < n
        invariant
            from <= i <= n,
            digit_run(s@, from as int) == digit_run(s@, i as int),
            all_digits(s@.subrange(from as int, i as int)),
        decreases n - i,
    {
        let c = s.get_char(i);
        if !(c >= '0' && c <= '9') {
            return i;
        }
        proof {
            assert(all_digits(s@.subrange(from as int, i as int + 1))) by {
                assert(forall|t: int|
                    0 <= t < i - from ==> s@.subrange(from as int, i as int + 1)[t]
                        == #[trigger] s@.subrange(from as int, i as int)[t]);
                assert(s@.subrange(from as int, i as int + 1)[i - from] == s@[i as int]);
            }
        }
        i = i + 1;
    }
    i
}

/// The value a digit run spells, refused early once it passes `cap`.
#[verifier::loop_isolation(false)]
fn scan_value(s: &str, n: usize, from: usize, to: usize, cap: u32) -> (r: Option<u32>)
    requires
        n == s@.len(),
        from <= to <= n,
        cap <= 65535,
        all_digits(s@.subrange(from as int, to as int)),
    ensures
        match r {
            Some(v) => v == digits_val(s@.subrange(from as int, to as int)) && v <= cap,
            None => digits_val(s@.subrange(from as int, to as int)) > cap,
        },
{
    let ghost seg = s@.subrange(from as int, to as int);
    proof {
        lemma_digits_val_bounds(seg);
    }
    let mut val: u32 = 0;
    let mut j: usize = from;
    while j < to
        invariant
            from <= j <= to,
            val == digits_val(seg.take(j - from)),
            val <= cap,
            cap <= 65535,
        decreases to - j,
    {
        let c = s.get_char(j);
        proof {
            assert(seg[j - from] == s@[j as int]);
            assert(is_digit(seg[j - from]));
            lemma_digits_val_step(seg, j - from);
        }
        let d: u32 = c as u32 - 48;
        let next: u32 = val * 10 + d;
        if next > cap {
            proof {
                assert(digits_val(seg.take(j - from + 1)) > cap);
                assert(digits_val(seg) >= digits_val(seg.take(j - from + 1)));
            }
            return None;
        }
        val = next;
        j = j + 1;
    }
    proof {
        assert(seg.take(to - from) =~= seg);
    }
    Some(val)
}

/// Parses `a.b.c.d:port`.  Returns the four octets and the port when
/// and only when the string has exactly that shape with in-range
/// numbers.
#[verifier::loop_isolation(false)]
pub fn parse_api_config(config_string: &str) -> (r: Option<([u8; 4], u16)>)
    requires
        config_string@.len() <= usize::MAX,
    ensures
        r == parse_config(config_string@),
{
    let n = config_string.unicode_len();
    let p1 = scan_digit_run(config_string, n, 0);
    if p1 == 0 || p1 >= n || !(config_string.get_char(p1) == '.') {
        return None;
    }
    let p2 = scan_digit_run(config_string, n, p1 + 1);
    if p2 <= p1 + 1 || p2 >= n || !(config_string.get_char(p2) == '.') {
        return None;
    }
    let p3 = scan_digit_run(config_string, n, p2 + 1);
    if p3 <= p2 + 1 || p3 >= n || !(config_string.get_char(p3) == '.') {
        return None;
    }
    let q = scan_digit_run(config_string, n, p3 + 1);
    if q <= p3 + 1 || q >= n || !(config_string.get_char(q) == ':') {
        return None;
    }
    let e = scan_digit_run(config_string, n, q + 1);
    if e <= q + 1 || e < n {
        return None;
    }
    let a = match scan_value(config_string, n, 0, p1, 255) {
        Some(v) => v,
        None => {
            return None;
        },
    };
    let b = match scan_value(config_string, n, p1 + 1, p2, 255) {
        Some(v) => v,
        None => {
            return None;
        },
    };
    let c = match scan_value(config_string, n, p2 + 1, p3, 255) {
        Some(v) => v,
        None => {
            return None;
        },
    };
    let d = match scan_value(config_string, n, p3 + 1, q, 255) {
        Some(v) => v,
        None => {
            return None;
        },
    };
    let port = match scan_value(config_string, n, q + 1, e, 65535) {
        Some(v) => v,
        None => {
            return None;
        },
    };
    Some(([a as u8, b as u8, c as u8, d as u8], port as u16))
}

} // verus!
