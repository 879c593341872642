//! Decimal digit sequences: recognizing them, reading their value, and
//! rendering a number back into its canonical decimal form.

use vstd::prelude::*;

verus! {

/// True for the ten ASCII decimal digits.
pub open spec fn is_ascii_digit(c: char) -> bool {
    '0' <= c && c <= '9'
}

/// The numeric value of one ASCII digit.
pub open spec fn digit_val(c: char) -> nat {
    (c as nat - '0' as nat) as nat
}

/// The value of a digit sequence read as a decimal numeral.
/// The empty sequence reads as zero.
pub open spec fn digits_value(s: Seq<char>) -> nat
    decreases s.len(),
{
    if s.len() == 0 {
        0
    } else {
        digits_value(s.drop_last()) * 10 + digit_val(s.last())
    }
}

/// True when every character of `s` is an ASCII digit.
pub open spec fn all_digits(s: Seq<char>) -> bool {
    forall|k: int| 0 <= k < s.len() ==> is_ascii_digit(s[k])
}

/// The digit character for a value below ten.
pub open spec fn digit_char(d: nat) -> char {
    if d == 0 {
        '0'
    } else if d == 1 {
        '1'
    } else if d == 2 {
        '2'
    } else if d == 3 {
        '3'
    } else if d == 4 {
        '4'
    } else if d == 5 {
        '5'
    } else if d == 6 {
        '6'
    } else if d == 7 {
        '7'
    } else if d == 8 {
        '8'
    } else {
        '9'
    }
}

/// The canonical decimal numeral of `n`: no leading zeros, and the single
/// digit `0` for zero itself.
pub open spec fn decimal_of(n: nat) -> Seq<char>
    decreases n,
{
    if n < 10 {
        seq![digit_char(n)]
    } else {
        decimal_of(n / 10).push(digit_char(n % 10))
    }
}

/// A canonical decimal numeral consists of digits only.
pub proof fn lemma_decimal_all_digits(n: nat)
    ensures
        all_digits(decimal_of(n)),
        decimal_of(n).len() > 0,
    decreases n,
{
    if n >= 10 {
        lemma_decimal_all_digits(n / 10);
    }
}

/// One step of reading a numeral: taking in one more digit multiplies the
/// value read so far by ten and adds the digit.
pub proof fn lemma_digits_value_step(s: Seq<char>, from: int, i: int)
    requires
        0 <= from <= i < s.len(),
    ensures
        digits_value(s.subrange(from, i + 1)) == digits_value(s.subrange(from, i)) * 10
            + digit_val(s[i]),
{
    assert(s.subrange(from, i + 1).drop_last() =~= s.subrange(from, i));
    assert(s.subrange(from, i + 1).last() == s[i]);
}

/// Reading a longer stretch of digits never gives a smaller value.
pub proof fn lemma_digits_value_extend(s: Seq<char>, from: int, i: int, to: int)
    requires
        0 <= from <= i <= to <= s.len(),
    ensures
        digits_value(s.subrange(from, to)) >= digits_value(s.subrange(from, i)),
    decreases to - i,
{
    if i < to {
        lemma_digits_value_step(s, from, i);
        lemma_digits_value_extend(s, from, i + 1, to);
    }
}

/// Reading the canonical numeral of `n` gives back `n`.
pub proof fn lemma_decimal_value(n: nat)
    ensures
        digits_value(decimal_of(n)) == n,
    decreases n,
{
    if n < 10 {
        assert(digit_val(digit_char(n)) == n);
        assert(decimal_of(n) =~= seq![digit_char(n)]);
        assert(decimal_of(n).drop_last() =~= Seq::<char>::empty());
        assert(digits_value(Seq::<char>::empty()) == 0);
        assert(decimal_of(n).last() == digit_char(n));
        assert(digits_value(decimal_of(n)) == n);
    } else {
        lemma_decimal_value(n / 10);
        assert(decimal_of(n).drop_last() =~= decimal_of(n / 10));
        assert(decimal_of(n).last() == digit_char(n % 10));
        assert(digit_val(digit_char(n % 10)) == n % 10);
        assert(digits_value(decimal_of(n)) == digits_value(decimal_of(n / 10)) * 10 + digit_val(
            decimal_of(n).last(),
        ));
        assert(digits_value(decimal_of(n)) == (n / 10) * 10 + n % 10);
        assert((n / 10) * 10 + n % 10 == n) by {
            vstd::arithmetic::div_mod::lemma_fundamental_div_mod(n as int, 10);
        }
    }
}

/// Decides whether `c` is an ASCII decimal digit.
pub fn ascii_digit(c: char) -> (r: bool)
    ensures
        r == is_ascii_digit(c),
{
    '0' <= c && c <= '9'
}

/// The one-character string for a digit value below ten.
fn digit_str(d: u64) -> (r: &'static str)
    requires
        d < 10,
    ensures
        r@ =~= seq![digit_char(d as nat)],
{
    if d == 0 {
        proof {
            reveal_strlit("0");
        }
        "0"
    } else if d == 1 {
        proof {
            reveal_strlit("1");
        }
        "1"
    } else if d == 2 {
        proof {
            reveal_strlit("2");
        }
        "2"
    } else if d == 3 {
        proof {
            reveal_strlit("3");
        }
        "3"
    } else if d == 4 {
        proof {
            reveal_strlit("4");
        }
        "4"
    } else if d == 5 {
        proof {
            reveal_strlit("5");
        }
        "5"
    } else if d == 6 {
        proof {
            reveal_strlit("6");
        }
        "6"
    } else if d == 7 {
        proof {
            reveal_strlit("7");
        }
        "7"
    } else if d == 8 {
        proof {
            reveal_strlit("8");
        }
        "8"
    } else {
        proof {
            reveal_strlit("9");
        }
        "9"
    }
}

/// Renders `n` as its canonical decimal numeral.
pub fn decimal_string(n: u64) -> (r: String)
    ensures
        r@ == decimal_of(n as nat),
    decreases n,
{
    if n < 10 {
        String::from_str(digit_str(n))
    } else {
        let high = decimal_string(n / 10);
        let r = high.concat(digit_str(n % 10));
        proof {
            assert(decimal_of(n as nat) =~= decimal_of((n / 10) as nat) + seq![
                digit_char((n % 10) as nat),
            ]);
        }
        r
    }
}

/// Reads the digits `s[from..to]` as a decimal number. Returns the value
/// when it is below `u64::MAX`, and nothing when it is not.
pub fn parse_decimal(s: &str, from: usize, to: usize) -> (r: Option<u64>)
    requires
        from <= to <= s@.len(),
        forall|k: int| from <= k < to ==> is_ascii_digit(s@[k]),
    ensures
        match r {
            Some(v) => v < u64::MAX && v as nat == digits_value(s@.subrange(from as int, to as int)),
            None => digits_value(s@.subrange(from as int, to as int)) >= u64::MAX,
        },
{
    let mut acc: u64 = 0;
    let mut i: usize = from;
    proof {
        assert(s@.subrange(from as int, from as int) =~= Seq::<char>::empty());
    }
    while i < to
        invariant
            from <= i <= to <= s@.len(),
            forall|k: int| from <= k < to ==> is_ascii_digit(s@[k]),
            acc as nat == digits_value(s@.subrange(from as int, i as int)),
        decreases to - i,
    {
        let c = s.get_char(i);
        assert(is_ascii_digit(c));
        let d: u64 = (c as u32 - 48) as u64;
        assert(d as nat == digit_val(c));
        let shifted = match acc.checked_mul(10) {
            Some(v) => v,
            None => {
                proof {
                    lemma_digits_value_step(s@, from as int, i as int);
                    lemma_digits_value_extend(s@, from as int, i as int + 1, to as int);
                }
                return None;
            },
        };
        let next = match shifted.checked_add(d) {
            Some(v) => v,
            None => {
                proof {
                    lemma_digits_value_step(s@, from as int, i as int);
                    lemma_digits_value_extend(s@, from as int, i as int + 1, to as int);
                }
                return None;
            },
        };
        proof {
            lemma_digits_value_step(s@, from as int, i as int);
        }
        acc = next;
        i = i + 1;
    }
    if acc < u64::MAX {
        Some(acc)
    } else {
        None
    }
}

} // verus!
