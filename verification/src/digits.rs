use vstd::prelude::*;

verus! {

/// The character for one decimal digit value.
pub open spec fn dec_digit_char(d: nat) -> char
    recommends
        d < 10,
{
    if d == 0 {
        '0'
    } else if d == 1 {
        '1'
    } else if d == 2 {
        '2'
    } else if d == 3 {
        '3'
    } else if d == 4 {
        '4'
    } else if d == 5 {
        '5'
    } else if d == 6 {
        '6'
    } else if d == 7 {
        '7'
    } else if d == 8 {
        '8'
    } else {
        '9'
    }
}

/// The usual decimal rendering of `n`: no sign, no leading zero except for
/// zero itself.
pub open spec fn dec_chars(n: nat) -> Seq<char>
    decreases n,
{
    if n < 10 {
        seq![dec_digit_char(n)]
    } else {
        dec_chars(n / 10).push(dec_digit_char(n % 10))
    }
}

/// Whether `c` is one of the ten decimal digit characters.
pub open spec fn is_dec_digit(c: char) -> bool {
    48 <= c as u32 <= 57
}

/// The value of one decimal digit character.
pub open spec fn digit_val(c: char) -> nat
    recommends
        is_dec_digit(c),
{
    (c as u32 - 48) as nat
}

/// Whether every character of `s` is a decimal digit.
pub open spec fn all_dec_digits(s: Seq<char>) -> bool {
    forall|i: int| 0 <= i < s.len() ==> is_dec_digit(#[trigger] s[i])
}

/// The value of a sequence of decimal digit characters, most significant
/// first; leading zeros are allowed and do not change the value.
pub open spec fn dec_value(s: Seq<char>) -> nat
    decreases s.len(),
{
    if s.len() == 0 {
        0
    } else {
        dec_value(s.drop_last()) * 10 + digit_val(s.last())
    }
}

/// The digit portion of a numeral token: an optional leading `+` sign is
/// stripped, everything else is kept.
pub open spec fn numeral_body(s: Seq<char>) -> Seq<char> {
    if s.len() > 0 && s[0] == '+' {
        s.drop_first()
    } else {
        s
    }
}

/// Whether `s` is a numeral this library reads as a `u64`: an optional `+`
/// sign, then at least one decimal digit, with a value that fits in `u64`.
pub open spec fn parses_as_u64(s: Seq<char>) -> bool {
    let d = numeral_body(s);
    d.len() > 0 && all_dec_digits(d) && dec_value(d) <= u64::MAX
}

/// Growing a digit sequence on the right never shrinks its value.
proof fn lemma_dec_value_extend(s: Seq<char>, lo: int, i: int, j: int)
    requires
        0 <= lo <= i <= j <= s.len(),
    ensures
        dec_value(s.subrange(lo, j)) >= dec_value(s.subrange(lo, i)),
    decreases j - i,
{
    if i < j {
        lemma_dec_value_extend(s, lo, i, j - 1);
        let shorter = s.subrange(lo, j - 1);
        let longer = s.subrange(lo, j);
        assert(longer.drop_last() =~= shorter);
        assert(dec_value(longer) == dec_value(shorter) * 10 + digit_val(longer.last()));
        assert(dec_value(shorter) * 10 >= dec_value(shorter));
    }
}

/// The string for one decimal digit.
fn digit_str(d: u64) -> (r: &'static str)
    requires
        d < 10,
    ensures
        r@ == seq![dec_digit_char(d as nat)],
{
    proof {
        reveal_strlit("0");
        reveal_strlit("1");
        reveal_strlit("2");
        reveal_strlit("3");
        reveal_strlit("4");
        reveal_strlit("5");
        reveal_strlit("6");
        reveal_strlit("7");
        reveal_strlit("8");
        reveal_strlit("9");
    }
    let r = match d {
        0 => "0",
        1 => "1",
        2 => "2",
        3 => "3",
        4 => "4",
        5 => "5",
        6 => "6",
        7 => "7",
        8 => "8",
        _ => "9",
    };
    proof {
        assert(r@ =~= seq![dec_digit_char(d as nat)]);
    }
    r
}

/// Appends the decimal rendering of `n` to `out`.
fn push_decimal(out: &mut String, n: u64)
    ensures
        final(out)@ == old(out)@ + dec_chars(n as nat),
    decreases n,
{
    if n < 10 {
        out.append(digit_str(n));
        proof {
            assert(old(out)@ + seq![dec_digit_char(n as nat)] =~= old(out)@ + dec_chars(n as nat));
        }
    } else {
        push_decimal(out, n / 10);
        out.append(digit_str(n % 10));
        proof {
            assert(old(out)@ + dec_chars((n / 10) as nat) + seq![
                dec_digit_char((n % 10) as nat),
            ] =~= old(out)@ + dec_chars(n as nat));
        }
    }
}

/// The decimal rendering of `n` as an owned string.
pub fn u64_to_string(n: u64) -> (r: String)
    ensures
        r@ == dec_chars(n as nat),
{
    let mut out = String::new();
    push_decimal(&mut out, n);
    proof {
        assert(Seq::<char>::empty() + dec_chars(n as nat) =~= dec_chars(n as nat));
    }
    out
}

/// Reads a `u64` from a numeral token: an optional `+` sign, then decimal
/// digits.  Returns `None` on an empty digit portion, on any non-digit
/// character, and on a value above `u64::MAX`.
pub fn parse_u64(s: &str) -> (r: Option<u64>)
    ensures
        parses_as_u64(s@) ==> r == Some(dec_value(numeral_body(s@)) as u64),
        !parses_as_u64(s@) ==> r is None,
{
    let n: usize = s.unicode_len();
    let start: usize = if n > 0 && s.get_char(0) == '+' {
        1
    } else {
        0
    };
    proof {
        assert(numeral_body(s@) =~= s@.subrange(start as int, n as int));
    }
    if start == n {
        return None;
    }
    let mut acc: u64 = 0;
    let mut i: usize = start;
    while i < n
        invariant
            start <= i <= n,
            n == s@.len(),
            all_dec_digits(s@.subrange(start as int, i as int)),
            acc == dec_value(s@.subrange(start as int, i as int)),
            numeral_body(s@) == s@.subrange(start as int, n as int),
        decreases n - i,
    {
        let c = s.get_char(i);
        let code: u32 = c as u32;
        if code < 48 || code > 57 {
            proof {
                assert(s@.subrange(start as int, n as int)[i - start] == c);
                assert(!all_dec_digits(numeral_body(s@)));
            }
            return None;
        }
        let d: u64 = (code - 48) as u64;
        proof {
            let prefix = s@.subrange(start as int, i as int);
            let extended = s@.subrange(start as int, i + 1);
            assert(extended.drop_last() =~= prefix);
            assert(extended.last() == s@[i as int]);
            assert(dec_value(extended) == dec_value(prefix) * 10 + digit_val(s@[i as int]));
        }
        let widened: u64 = match acc.checked_mul(10) {
            Some(w) => w,
            None => {
                proof {
                    lemma_dec_value_extend(s@, start as int, i + 1, n as int);
                }
                return None;
            },
        };
        acc = match widened.checked_add(d) {
            Some(a) => a,
            None => {
                proof {
                    lemma_dec_value_extend(s@, start as int, i + 1, n as int);
                }
                return None;
            },
        };
        i += 1;
    }
    proof {
        assert(s@.subrange(start as int, i as int) =~= numeral_body(s@));
    }
    Some(acc)
}

} // verus!
