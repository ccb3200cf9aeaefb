//! Small verified string helpers: decimal rendering of integers (used to
//! build validation messages that name expected and actual values) and
//! duplicate-free collection of strings (used for tag sets).

use vstd::prelude::*;
use vstd::string::StringExecFns;

verus! {

/// The digit character for `d` (`0 <= d <= 9`).
pub open spec fn digit_char(d: int) -> char {
    if d == 0 {
        '0'
    } else if d == 1 {
        '1'
    } else if d == 2 {
        '2'
    } else if d == 3 {
        '3'
    } else if d == 4 {
        '4'
    } else if d == 5 {
        '5'
    } else if d == 6 {
        '6'
    } else if d == 7 {
        '7'
    } else if d == 8 {
        '8'
    } else {
        '9'
    }
}

/// The decimal digits of `n`, most significant first.
pub open spec fn dec_digits(n: nat) -> Seq<char>
    decreases n,
{
    if n < 10 {
        seq![digit_char(n as int)]
    } else {
        dec_digits(n / 10) + seq![digit_char((n % 10) as int)]
    }
}

/// The decimal rendering of `n`, with a leading minus sign when negative.
pub open spec fn dec_str(n: int) -> Seq<char> {
    if n < 0 {
        seq!['-'] + dec_digits((-n) as nat)
    } else {
        dec_digits(n as nat)
    }
}

fn digit_str(d: u128) -> (r: &'static str)
    requires
        d <= 9,
    ensures
        r@ == seq![digit_char(d as int)],
{
    proof {
        reveal_strlit("0");
        reveal_strlit("1");
        reveal_strlit("2");
        reveal_strlit("3");
        reveal_strlit("4");
        reveal_strlit("5");
        reveal_strlit("6");
        reveal_strlit("7");
        reveal_strlit("8");
        reveal_strlit("9");
    }
    let r = match d {
        0 => "0",
        1 => "1",
        2 => "2",
        3 => "3",
        4 => "4",
        5 => "5",
        6 => "6",
        7 => "7",
        8 => "8",
        _ => "9",
    };
    proof {
        assert(r@ =~= seq![digit_char(d as int)]);
    }
    r
}

/// Appends the decimal digits of `n` to `s`.
fn append_dec_u128(s: &mut String, n: u128)
    ensures
        final(s)@ == old(s)@ + dec_digits(n as nat),
    decreases n,
{
    if n >= 10 {
        append_dec_u128(s, n / 10);
    }
    s.append(digit_str(n % 10));
    proof {
        assert(final(s)@ =~= old(s)@ + dec_digits(n as nat));
    }
}

/// Renders `n` in decimal.
pub fn i64_to_string(n: i64) -> (r: String)
    ensures
        r@ == dec_str(n as int),
{
    i128_to_string(n as i128)
}

/// Renders `n` in decimal.
pub fn i128_to_string(n: i128) -> (r: String)
    ensures
        r@ == dec_str(n as int),
{
    let mut s = String::new();
    if n < 0 {
        proof {
            reveal_strlit("-");
        }
        s.append("-");
        let mag: u128 = if n == i128::MIN {
            0x8000_0000_0000_0000_0000_0000_0000_0000u128
        } else {
            (-n) as u128
        };
        append_dec_u128(&mut s, mag);
        proof {
            assert(s@ =~= dec_str(n as int));
        }
    } else {
        append_dec_u128(&mut s, n as u128);
        proof {
            assert(s@ =~= dec_str(n as int));
        }
    }
    s
}

/// Whether some element of `v` has the same characters as `s`.
pub open spec fn contains_str(v: Seq<String>, s: Seq<char>) -> bool {
    exists|i: int| 0 <= i < v.len() && v[i]@ == s
}

/// No two elements of `v` have the same characters.
pub open spec fn strings_unique(v: Seq<String>) -> bool {
    forall|i: int, j: int| 0 <= i < j < v.len() ==> v[i]@ != v[j]@
}

proof fn lemma_contains_str_push(v: Seq<String>, x: String, s: Seq<char>)
    requires
        contains_str(v, s),
    ensures
        contains_str(v.push(x), s),
{
    let i = choose|i: int| 0 <= i < v.len() && v[i]@ == s;
    assert(v.push(x)[i]@ == s);
}

/// Whether `v` holds a string with the same characters as `s`.
pub fn vec_contains_string(v: &Vec<String>, s: &String) -> (r: bool)
    ensures
        r == contains_str(v@, s@),
{
    let mut i: usize = 0;
    while i < v.len()
        invariant
            0 <= i <= v@.len(),
            forall|k: int| 0 <= k < i ==> v@[k]@ != s@,
        decreases v@.len() - i,
    {
        if v[i].eq(s) {
            return true;
        }
        i = i + 1;
    }
    false
}

/// Copies `items` into a new vector, keeping only the first occurrence
/// of each string: the result has set semantics.
pub fn dedup_strings(items: &Vec<String>) -> (r: Vec<String>)
    ensures
        strings_unique(r@),
        forall|i: int| 0 <= i < r@.len() ==> contains_str(items@, #[trigger] r@[i]@),
        forall|i: int| 0 <= i < items@.len() ==> contains_str(r@, #[trigger] items@[i]@),
{
    let mut r: Vec<String> = Vec::new();
    let mut i: usize = 0;
    while i < items.len()
        invariant
            0 <= i <= items@.len(),
            strings_unique(r@),
            forall|k: int| 0 <= k < r@.len() ==> contains_str(items@, #[trigger] r@[k]@),
            forall|k: int| 0 <= k < i ==> contains_str(r@, #[trigger] items@[k]@),
        decreases items@.len() - i,
    {
        if !vec_contains_string(&r, &items[i]) {
            let ghost old_r = r@;
            r.push(items[i].clone());
            proof {
                assert(r@[r@.len() - 1]@ == items@[i as int]@);
                assert(contains_str(r@, items@[i as int]@));
                assert forall|k: int| 0 <= k < i implies contains_str(
                    r@,
                    #[trigger] items@[k]@,
                ) by {
                    lemma_contains_str_push(old_r, r@[r@.len() - 1], items@[k]@);
                    assert(r@ =~= old_r.push(r@[r@.len() - 1]));
                }
            }
        } else {
            proof {
                assert(contains_str(r@, items@[i as int]@));
            }
        }
        i = i + 1;
    }
    r
}

} // verus!
