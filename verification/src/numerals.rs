//! Decimal numerals: the value of a digit string and the digit string of a
//! value, as used by the `name=id` registry records.

use vstd::prelude::*;

verus! {

/// A decimal digit character, `'0'` through `'9'`.
pub open spec fn is_dec_digit(c: char) -> bool {
    48 <= c as int <= 57
}

/// The numeric value of one digit character.
pub open spec fn dec_digit_value(c: char) -> int {
    c as int - 48
}

/// Every character of `s` is a decimal digit.
pub open spec fn all_dec_digits(s: Seq<char>) -> bool {
    forall|i: int| 0 <= i < s.len() ==> is_dec_digit(#[trigger] s[i])
}

/// The numeric value of a digit string, most significant digit first.
pub open spec fn dec_value(s: Seq<char>) -> int
    decreases s.len(),
{
    if s.len() == 0 {
        0
    } else {
        dec_value(s.drop_last()) * 10 + dec_digit_value(s.last())
    }
}

/// What `str::parse::<u64>` accepts: an optional leading `+`, then one or
/// more decimal digits, whose value fits in a `u64`.
pub open spec fn parse_u64(s: Seq<char>) -> Option<u64> {
    let digits = if s.len() > 0 && s[0] == '+' {
        s.skip(1)
    } else {
        s
    };
    if digits.len() > 0 && all_dec_digits(digits) && dec_value(digits) <= u64::MAX {
        Some(dec_value(digits) as u64)
    } else {
        None
    }
}

/// The character of one decimal digit value.
pub open spec fn dec_digit_char(d: int) -> char {
    if d == 0 {
        '0'
    } else if d == 1 {
        '1'
    } else if d == 2 {
        '2'
    } else if d == 3 {
        '3'
    } else if d == 4 {
        '4'
    } else if d == 5 {
        '5'
    } else if d == 6 {
        '6'
    } else if d == 7 {
        '7'
    } else if d == 8 {
        '8'
    } else {
        '9'
    }
}

/// The canonical decimal numeral of `n`: no sign, no leading zero except for
/// `n == 0` itself.
pub open spec fn dec_of(n: nat) -> Seq<char>
    decreases n,
{
    if n < 10 {
        seq![dec_digit_char(n as int)]
    } else {
        dec_of((n / 10) as nat).push(dec_digit_char((n % 10) as int))
    }
}

/// A digit string has a nonnegative value.
proof fn lemma_dec_value_nonneg(s: Seq<char>)
    requires
        all_dec_digits(s),
    ensures
        dec_value(s) >= 0,
    decreases s.len(),
{
    if s.len() > 0 {
        assert(all_dec_digits(s.drop_last()));
        lemma_dec_value_nonneg(s.drop_last());
    }
}

/// Extending a digit string to the right never lowers its value.
proof fn lemma_dec_value_prefix_le(s: Seq<char>, j: int)
    requires
        all_dec_digits(s),
        0 <= j <= s.len(),
    ensures
        dec_value(s.take(j)) <= dec_value(s),
    decreases s.len() - j,
{
    if j < s.len() {
        let t = s.drop_last();
        assert(all_dec_digits(t));
        lemma_dec_value_prefix_le(t, j);
        assert(t.take(j) =~= s.take(j));
        lemma_dec_value_nonneg(t);
        assert(is_dec_digit(s.last()));
        assert(dec_value(s) == dec_value(t) * 10 + dec_digit_value(s.last()));
        assert(dec_value(t) * 10 >= dec_value(t));
    } else {
        assert(s.take(j) =~= s);
    }
}

/// The numeral of `n` is all digits, does not begin with a sign, and has
/// value `n`.
pub proof fn lemma_dec_of_value(n: nat)
    ensures
        dec_of(n).len() >= 1,
        all_dec_digits(dec_of(n)),
        dec_value(dec_of(n)) == n,
    decreases n,
{
    if n < 10 {
        assert(dec_of(n) =~= seq![dec_digit_char(n as int)]);
        assert(dec_value(dec_of(n)) == dec_value(dec_of(n).drop_last()) * 10 + dec_digit_value(
            dec_of(n).last(),
        ));
        assert(dec_of(n).drop_last() =~= Seq::<char>::empty());
    } else {
        let q = (n / 10) as nat;
        let r = (n % 10) as int;
        lemma_dec_of_value(q);
        let s = dec_of(n);
        assert(s == dec_of(q).push(dec_digit_char(r)));
        assert(s.drop_last() =~= dec_of(q));
        assert(s.last() == dec_digit_char(r));
        assert(0 <= r < 10);
        assert(is_dec_digit(dec_digit_char(r)) && dec_digit_value(dec_digit_char(r)) == r);
        assert(forall|i: int|
            0 <= i < s.len() ==> is_dec_digit(
                #[trigger] s[i],
            )) by {
            assert(forall|i: int| 0 <= i < s.len() - 1 ==> s[i] == dec_of(q)[i]);
        }
        assert(dec_value(s) == q * 10 + r);
        assert(n == q * 10 + r);
    }
}

/// Parsing the numeral of `n` gives back exactly `n`.
pub proof fn lemma_parse_dec_of(n: u64)
    ensures
        parse_u64(dec_of(n as nat)) == Some(n),
{
    lemma_dec_of_value(n as nat);
    let s = dec_of(n as nat);
    assert(is_dec_digit(s[0]));
    assert(s[0] != '+');
}

/// Parses a whole string as a `u64`, as `str::parse::<u64>` does: an
/// optional leading `+`, then one or more decimal digits; anything else,
/// or a value above `u64::MAX`, is rejected.
pub fn parse_u64_str(s: &str) -> (r: Option<u64>)
    ensures
        r == parse_u64(s@),
{
    let n = s.unicode_len();
    let offset: usize = if n > 0 && s.get_char(0) == '+' {
        1
    } else {
        0
    };
    let ghost digits = if offset == 1 {
        s@.skip(1)
    } else {
        s@
    };
    if offset == n {
        // No digits at all.
        return None;
    }
    let mut acc: u64 = 0;
    let mut i: usize = offset;
    while i < n
        invariant
            offset <= i <= n,
            offset <= 1,
            n == s@.len(),
            digits == (if offset == 1 {
                s@.skip(1)
            } else {
                s@
            }),
            (offset == 1) == (s@.len() > 0 && s@[0] == '+'),
            digits.len() == n - offset,
            all_dec_digits(digits.take(i - offset)),
            acc == dec_value(digits.take(i - offset)),
        decreases n - i,
    {
        let c = s.get_char(i);
        let u = c as u32;
        proof {
            assert(digits[i - offset] == s@[i as int]);
        }
        if u < 48 || u > 57 {
            // Not a digit: the whole line value is malformed.
            proof {
                assert(!is_dec_digit(digits[i - offset]));
            }
            return None;
        }
        let d: u64 = (u - 48) as u64;
        proof {
            assert(is_dec_digit(digits[i - offset]));
            assert(d == dec_digit_value(digits[i - offset]));
        }
        if acc > (u64::MAX - d) / 10 {
            // The value would exceed `u64::MAX`; later digits only grow it.
            proof {
                let taken = digits.take(i - offset + 1);
                assert(taken.drop_last() =~= digits.take(i - offset));
                assert(taken.last() == digits[i - offset]);
                let q = (u64::MAX - d) / 10;
                assert(u64::MAX - d == 10 * q + (u64::MAX - d) % 10);
                assert(acc * 10 >= (q + 1) * 10);
                assert(dec_value(taken) == acc * 10 + d > u64::MAX);
                if all_dec_digits(digits) {
                    lemma_dec_value_prefix_le(digits, i - offset + 1);
                }
            }
            return None;
        }
        proof {
            let q = (u64::MAX - d) / 10;
            assert(u64::MAX - d == 10 * q + (u64::MAX - d) % 10);
            assert(acc * 10 <= q * 10);
            let taken = digits.take(i - offset + 1);
            assert(taken.drop_last() =~= digits.take(i - offset));
            assert(taken.last() == digits[i - offset]);
            assert(dec_value(taken) == acc * 10 + d);
        }
        acc = acc * 10 + d;
        i = i + 1;
    }
    proof {
        assert(digits.take(n - offset) =~= digits);
    }
    Some(acc)
}

/// One decimal digit as a string slice.
fn dec_digit_str(d: u64) -> (r: &'static str)
    requires
        d < 10,
    ensures
        r@ == seq![dec_digit_char(d as int)],
{
    if d == 0 {
        proof {
            reveal_strlit("0");
            assert("0"@ =~= seq![dec_digit_char(0)]);
        }
        "0"
    } else if d == 1 {
        proof {
            reveal_strlit("1");
            assert("1"@ =~= seq![dec_digit_char(1)]);
        }
        "1"
    } else if d == 2 {
        proof {
            reveal_strlit("2");
            assert("2"@ =~= seq![dec_digit_char(2)]);
        }
        "2"
    } else if d == 3 {
        proof {
            reveal_strlit("3");
            assert("3"@ =~= seq![dec_digit_char(3)]);
        }
        "3"
    } else if d == 4 {
        proof {
            reveal_strlit("4");
            assert("4"@ =~= seq![dec_digit_char(4)]);
        }
        "4"
    } else if d == 5 {
        proof {
            reveal_strlit("5");
            assert("5"@ =~= seq![dec_digit_char(5)]);
        }
        "5"
    } else if d == 6 {
        proof {
            reveal_strlit("6");
            assert("6"@ =~= seq![dec_digit_char(6)]);
        }
        "6"
    } else if d == 7 {
        proof {
            reveal_strlit("7");
            assert("7"@ =~= seq![dec_digit_char(7)]);
        }
        "7"
    } else if d == 8 {
        proof {
            reveal_strlit("8");
            assert("8"@ =~= seq![dec_digit_char(8)]);
        }
        "8"
    } else {
        proof {
            reveal_strlit("9");
            assert("9"@ =~= seq![dec_digit_char(9)]);
        }
        "9"
    }
}

/// Appends the decimal numeral of `n` to `out`.
pub fn push_decimal(out: &mut String, n: u64)
    ensures
        final(out)@ == old(out)@ + dec_of(n as nat),
    decreases n,
{
    let ghost prefix = out@;
    if n >= 10 {
        push_decimal(out, n / 10);
    }
    out.append(dec_digit_str(n % 10));
    proof {
        if n >= 10 {
            assert(out@ =~= prefix + dec_of((n / 10) as nat).push(
                dec_digit_char((n % 10) as int),
            ));
        } else {
            assert(out@ =~= prefix + seq![dec_digit_char(n as int)]);
        }
    }
}

} // verus!
