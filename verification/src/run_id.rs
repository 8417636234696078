//! Run identifiers. A run is named by the nanosecond instant of its
//! creation, written in decimal; the number defines the age order of runs
//! and the string names their files.

use vstd::prelude::*;

verus! {

/// The digit character for a value below ten.
pub open spec fn digit_char(d: nat) -> char {
    if d == 0 {
        '0'
    } else if d == 1 {
        '1'
    } else if d == 2 {
        '2'
    } else if d == 3 {
        '3'
    } else if d == 4 {
        '4'
    } else if d == 5 {
        '5'
    } else if d == 6 {
        '6'
    } else if d == 7 {
        '7'
    } else if d == 8 {
        '8'
    } else {
        '9'
    }
}

/// The value of a digit character, or ten for any other character.
pub open spec fn char_digit(c: char) -> nat {
    if c == '0' {
        0nat
    } else if c == '1' {
        1nat
    } else if c == '2' {
        2nat
    } else if c == '3' {
        3nat
    } else if c == '4' {
        4nat
    } else if c == '5' {
        5nat
    } else if c == '6' {
        6nat
    } else if c == '7' {
        7nat
    } else if c == '8' {
        8nat
    } else if c == '9' {
        9nat
    } else {
        10nat
    }
}

/// The decimal digits of n, most significant first, no leading zeros.
pub open spec fn dec_str(n: nat) -> Seq<char>
    decreases n,
{
    if n < 10 {
        seq![digit_char(n)]
    } else {
        dec_str(n / 10).push(digit_char(n % 10))
    }
}

/// Whether every character of s is a decimal digit.
pub open spec fn all_digits(s: Seq<char>) -> bool {
    forall|i: int| 0 <= i < s.len() ==> char_digit(s[i]) < 10
}

/// The number a digit string denotes: defined when the string is nonempty
/// and all digits.
pub open spec fn digits_value(s: Seq<char>) -> Option<nat>
    decreases s.len(),
{
    if s.len() == 0 {
        None
    } else if char_digit(s.last()) >= 10 {
        None
    } else if s.len() == 1 {
        Some(char_digit(s.last()))
    } else {
        match digits_value(s.drop_last()) {
            None => None,
            Some(high) => Some(10 * high + char_digit(s.last())),
        }
    }
}

/// digits_value is defined exactly on nonempty all-digit strings.
pub proof fn lemma_digits_value_defined(s: Seq<char>)
    ensures
        digits_value(s) is Some <==> (s.len() > 0 && all_digits(s)),
    decreases s.len(),
{
    if s.len() > 0 {
        lemma_digits_value_defined(s.drop_last());
        if s.len() > 1 && digits_value(s) is Some {
            assert(all_digits(s.drop_last()));
            assert forall|i: int| 0 <= i < s.len() implies char_digit(s[i]) < 10 by {
                if i < s.len() - 1 {
                    assert(s.drop_last()[i] == s[i]);
                }
            }
        }
        if s.len() > 1 && s.len() > 0 && all_digits(s) {
            assert forall|i: int| 0 <= i < s.drop_last().len() implies char_digit(
                s.drop_last()[i],
            ) < 10 by {
                assert(s.drop_last()[i] == s[i]);
            }
        }
    }
}

/// A digit string's value only grows as the string is extended.
pub proof fn lemma_digits_prefix_bound(s: Seq<char>, j: int)
    requires
        0 < j <= s.len(),
        all_digits(s),
    ensures
        digits_value(s.take(j)) is Some,
        digits_value(s) is Some,
        digits_value(s.take(j))->0 <= digits_value(s)->0,
    decreases s.len() - j,
{
    lemma_digits_value_defined(s);
    assert forall|i: int| 0 <= i < s.take(j).len() implies char_digit(s.take(j)[i]) < 10 by {
        assert(s.take(j)[i] == s[i]);
    }
    lemma_digits_value_defined(s.take(j));
    if j < s.len() {
        lemma_digits_prefix_bound(s, j + 1);
        assert(s.take(j + 1).drop_last() =~= s.take(j));
        assert(s.take(j + 1).last() == s[j]);
        assert(digits_value(s.take(j + 1))->0 == 10 * digits_value(s.take(j))->0 + char_digit(
            s[j],
        ));
    } else {
        assert(s.take(j) =~= s);
    }
}

/// Writing a number in decimal and reading it back yields the number.
pub proof fn lemma_dec_str_value(n: nat)
    ensures
        digits_value(dec_str(n)) == Some(n),
        dec_str(n).len() >= 1,
    decreases n,
{
    if n < 10 {
        assert(char_digit(digit_char(n)) == n);
    } else {
        lemma_dec_str_value(n / 10);
        let s = dec_str(n / 10).push(digit_char(n % 10));
        assert(s.last() == digit_char(n % 10));
        assert(char_digit(s.last()) == n % 10);
        assert(s.drop_last() =~= dec_str(n / 10));
    }
}

/// The digit character of a value below ten.
pub fn digit_char_of(d: u128) -> (c: char)
    requires
        d < 10,
    ensures
        c == digit_char(d as nat),
{
    if d == 0 {
        '0'
    } else if d == 1 {
        '1'
    } else if d == 2 {
        '2'
    } else if d == 3 {
        '3'
    } else if d == 4 {
        '4'
    } else if d == 5 {
        '5'
    } else if d == 6 {
        '6'
    } else if d == 7 {
        '7'
    } else if d == 8 {
        '8'
    } else {
        '9'
    }
}

/// The value of a digit character, or ten for any other character.
pub fn char_digit_of(c: char) -> (d: u8)
    ensures
        d as nat == char_digit(c),
{
    if c == '0' {
        0
    } else if c == '1' {
        1
    } else if c == '2' {
        2
    } else if c == '3' {
        3
    } else if c == '4' {
        4
    } else if c == '5' {
        5
    } else if c == '6' {
        6
    } else if c == '7' {
        7
    } else if c == '8' {
        8
    } else if c == '9' {
        9
    } else {
        10
    }
}

/// Writes a number as its decimal digits.
pub fn u128_to_string(n: u128) -> (r: String)
    ensures
        r@ == dec_str(n as nat),
    decreases n,
{
    if n < 10 {
        let mut s = String::new();
        crate::codec::push_char(&mut s, digit_char_of(n));
        proof {
            assert(s@ =~= dec_str(n as nat));
        }
        s
    } else {
        let mut s = u128_to_string(n / 10);
        crate::codec::push_char(&mut s, digit_char_of(n % 10));
        s
    }
}

/// Reads a decimal string as a number. None when the string is empty, has
/// a non-digit, or denotes a value too large for the word.
pub fn parse_run_id(s: &str) -> (r: Option<u128>)
    ensures
        match r {
            Some(n) => digits_value(s@) == Some(n as nat),
            None => digits_value(s@) is None || digits_value(s@)->0
                > 0xffffffffffffffffffffffffffffffff,
        },
{
    let n: usize = s.unicode_len();
    if n == 0 {
        return None;
    }
    let mut acc: u128 = 0;
    let mut i: usize = 0;
    while i < n
        invariant
            0 < n == s@.len(),
            i <= n,
            all_digits(s@.take(i as int)),
            i > 0 ==> digits_value(s@.take(i as int)) == Some(acc as nat),
            i == 0 ==> acc == 0,
        decreases n - i,
    {
        let c: char = s.get_char(i);
        let d: u8 = char_digit_of(c);
        if d >= 10 {
            proof {
                lemma_digits_value_defined(s@);
            }
            return None;
        }
        if acc > (u128::MAX - (d as u128)) / 10 {
            proof {
                // the value at i + 1 digits already exceeds the word
                assert(all_digits(s@.take(i + 1))) by {
                    assert forall|j: int| 0 <= j < i + 1 implies char_digit(
                        #[trigger] s@.take(i + 1)[j],
                    ) < 10 by {
                        if j < i {
                            assert(s@.take(i as int)[j] == s@.take(i + 1)[j]);
                        }
                    }
                }
                assert(s@.take(i + 1).drop_last() =~= s@.take(i as int));
                assert(digits_value(s@.take(i + 1))->0 > 0xffffffffffffffffffffffffffffffff);
                if all_digits(s@) {
                    lemma_digits_prefix_bound(s@, i + 1);
                } else {
                    lemma_digits_value_defined(s@);
                }
            }
            return None;
        }
        proof {
            assert(s@.take(i + 1).drop_last() =~= s@.take(i as int));
            assert(all_digits(s@.take(i + 1))) by {
                assert forall|j: int| 0 <= j < i + 1 implies char_digit(
                    #[trigger] s@.take(i + 1)[j],
                ) < 10 by {
                    if j < i {
                        assert(s@.take(i as int)[j] == s@.take(i + 1)[j]);
                    }
                }
            }
            lemma_digits_value_defined(s@.take(i + 1));
        }
        acc = acc * 10 + (d as u128);
        i = i + 1;
    }
    proof {
        assert(s@.take(n as int) =~= s@);
    }
    Some(acc)
}

} // verus!
