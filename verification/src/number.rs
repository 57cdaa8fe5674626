//! Decimal numbers and flags written as text.
use crate::text::{chars_of, same_text};
use vstd::prelude::*;

verus! {

/// Why a text is not an unsigned number.
#[derive(Debug, Clone, Copy, PartialEq, Eq, Structural)]
pub enum NumberError {
    /// The text is empty.
    Empty,
    /// A character other than a digit was met.
    InvalidDigit,
    /// The digits read so far exceed the largest number allowed.
    TooLarge,
}

pub open spec fn is_digit(c: char) -> bool {
    '0' <= c <= '9'
}

/// The character that writes the digit `d`.
pub open spec fn digit_char(d: nat) -> char {
    (48 + d) as char
}

/// `n` in decimal, without leading zeros.
pub open spec fn decimal(n: nat) -> Seq<char>
    decreases n,
{
    if n < 10 {
        seq![digit_char(n)]
    } else {
        decimal(n / 10).push(digit_char(n % 10))
    }
}

/// The number that the digits of `s` write, read from the left; the first character
/// that is no digit, or that makes the number exceed `max`, ends the reading.
pub open spec fn read_digits(s: Seq<char>, max: nat) -> Result<nat, NumberError>
    decreases s.len(),
{
    if s.len() == 0 {
        Ok(0)
    } else {
        match read_digits(s.drop_last(), max) {
            Err(e) => Err(e),
            Ok(v) => if !is_digit(s.last()) {
                Err(NumberError::InvalidDigit)
            } else if v * 10 + (s.last() as int - 48) > max {
                Err(NumberError::TooLarge)
            } else {
                Ok((v * 10 + (s.last() as int - 48)) as nat)
            },
        }
    }
}

/// The unsigned number that `s` writes: an optional `+`, then one or more digits.
pub open spec fn number_of(s: Seq<char>, max: nat) -> Result<nat, NumberError> {
    if s.len() == 0 {
        Err(NumberError::Empty)
    } else if s[0] == '+' {
        if s.len() == 1 {
            Err(NumberError::InvalidDigit)
        } else {
            read_digits(s.drop_first(), max)
        }
    } else {
        read_digits(s, max)
    }
}

/// The number up to `u32::MAX` that `s` writes, if it writes one.
pub open spec fn number_u32(s: Seq<char>) -> Option<u32> {
    match number_of(s, u32::MAX as nat) {
        Ok(v) => Some(v as u32),
        Err(_) => None,
    }
}

/// The flag that `s` writes: `true` or `false`, nothing else.
pub open spec fn flag_of(s: Seq<char>) -> Option<bool> {
    if s == "true"@ {
        Some(true)
    } else if s == "false"@ {
        Some(false)
    } else {
        None
    }
}

/// `n` in decimal.
pub fn decimal_text(n: u64) -> (r: String)
    ensures
        r@ == decimal(n as nat),
    decreases n,
{
    if n < 10 {
        let mut r = String::new();
        r.push(((n as u8) + 48) as char);
        assert(r@ =~= seq![digit_char(n as nat)]);
        r
    } else {
        let mut r = decimal_text(n / 10);
        r.push(((n % 10) as u8 + 48) as char);
        r
    }
}

/// Reads the unsigned number that `s` writes, up to `max`.
pub fn parse_number(s: &str, max: u64) -> (r: Result<u64, NumberError>)
    ensures
        match (r, number_of(s@, max as nat)) {
            (Ok(v), Ok(w)) => v == w,
            (Err(e), Err(f)) => e == f,
            _ => false,
        },
        r matches Ok(v) ==> v <= max,
{
    let cs = chars_of(s);
    let n: usize = cs.len();
    if n == 0 {
        return Err(NumberError::Empty);
    }
    let first: usize = if cs[0] == '+' {
        1
    } else {
        0
    };
    if first == n {
        return Err(NumberError::InvalidDigit);
    }
    let ghost body = s@.subrange(first as int, n as int);
    proof {
        if first == 1 {
            assert(body == s@.drop_first());
        } else {
            assert(body == s@);
        }
    }
    let mut v: u64 = 0;
    let mut i: usize = first;
    while i < n
        invariant
            first <= i <= n,
            n == cs@.len(),
            cs@ == s@,
            body == s@.subrange(first as int, n as int),
            number_of(s@, max as nat) == read_digits(body, max as nat),
            read_digits(body.take(i - first), max as nat) == Ok::<nat, NumberError>(v as nat),
            v <= max,
        decreases n - i,
    {
        let c = cs[i];
        let ghost here = body.take(i + 1 - first);
        assert(here.drop_last() == body.take(i - first));
        assert(here.last() == c);
        proof {
            if read_digits(here, max as nat) is Err {
                lemma_read_digits_err(body, i + 1 - first, max as nat);
            }
        }
        if !('0' <= c && c <= '9') {
            return Err(NumberError::InvalidDigit);
        }
        let d: u64 = (c as u32 - 48) as u64;
        if v > max / 10 || d > max - v * 10 {
            assert(v * 10 + d > max);
            return Err(NumberError::TooLarge);
        }
        v = v * 10 + d;
        i = i + 1;
    }
    assert(body.take(n - first) == body);
    Ok(v)
}

/// Reads the number up to `u32::MAX` that `s` writes.
pub fn parse_u32(s: &str) -> (r: Option<u32>)
    ensures
        r == number_u32(s@),
{
    match parse_number(s, u32::MAX as u64) {
        Ok(v) => Some(v as u32),
        Err(_) => None,
    }
}

/// Reads the flag that `s` writes.
pub fn parse_flag(s: &str) -> (r: Option<bool>)
    ensures
        r == flag_of(s@),
{
    if same_text(s, "true") {
        Some(true)
    } else if same_text(s, "false") {
        Some(false)
    } else {
        None
    }
}

/// A failure to read a prefix is the failure to read the whole.
proof fn lemma_read_digits_err(s: Seq<char>, k: int, max: nat)
    requires
        0 <= k <= s.len(),
        read_digits(s.take(k), max) is Err,
    ensures
        read_digits(s, max) == read_digits(s.take(k), max),
    decreases s.len() - k,
{
    if k < s.len() {
        assert(s.take(k + 1).drop_last() == s.take(k));
        lemma_read_digits_err(s, k + 1, max);
    } else {
        assert(s.take(k) == s);
    }
}

proof fn lemma_decimal_digits(n: nat, max: nat)
    requires
        n <= max,
    ensures
        decimal(n).len() > 0,
        is_digit(decimal(n)[0]),
        read_digits(decimal(n), max) == Ok::<nat, NumberError>(n),
    decreases n,
{
    if n < 10 {
        assert(decimal(n).drop_last() == Seq::<char>::empty());
        assert(read_digits(decimal(n).drop_last(), max) == Ok::<nat, NumberError>(0));
    } else {
        lemma_decimal_digits(n / 10, max);
        assert(decimal(n).drop_last() == decimal(n / 10));
        assert(decimal(n).last() == digit_char(n % 10));
        assert((n / 10) * 10 + n % 10 == n);
    }
}

/// Reading back the decimal form of a number gives that number.
pub proof fn decimal_reads_back(n: nat, max: nat)
    requires
        n <= max,
    ensures
        number_of(decimal(n), max) == Ok::<nat, NumberError>(n),
{
    lemma_decimal_digits(n, max);
}

/// All characters are digits.
pub open spec fn all_digits(s: Seq<char>) -> bool {
    forall|i: int| 0 <= i < s.len() ==> 48 <= #[trigger] s[i] as int <= 57
}

/// What digits are worth: each ten times what the next one is.
pub open spec fn worth(s: Seq<char>) -> nat
    decreases s.len(),
{
    if s.len() == 0 {
        0
    } else {
        (10 * worth(s.drop_last()) + (s.last() as int - 48)) as nat
    }
}

/// The text writes the number: one or more digits that are worth it, with or without a plus
/// before them.
pub open spec fn writes(s: Seq<char>, n: nat) -> bool {
    let digits = if s.len() > 0 && s[0] == '+' {
        s.drop_first()
    } else {
        s
    };
    digits.len() > 0 && all_digits(digits) && worth(digits) == n
}

proof fn digits_are_read(s: Seq<char>, max: nat)
    ensures
        all_digits(s) ==> read_digits(s, max) == if worth(s) <= max {
            Ok::<nat, NumberError>(worth(s))
        } else {
            Err::<nat, NumberError>(NumberError::TooLarge)
        },
        read_digits(s, max) is Ok ==> all_digits(s),
    decreases s.len(),
{
    if s.len() > 0 {
        let front = s.drop_last();
        digits_are_read(front, max);
        assert(forall|i: int| 0 <= i < front.len() ==> #[trigger] front[i] == s[i]);
        assert(s[s.len() - 1] == s.last());
        if all_digits(s) {
            assert(all_digits(front));
        }
        if read_digits(s, max) is Ok {
            assert forall|i: int| 0 <= i < s.len() implies 48 <= #[trigger] s[i] as int <= 57 by {
                if i < front.len() {
                    assert(front[i] == s[i]);
                }
            }
        }
    }
}

/// A text is read as a number exactly where it writes one: as that number, unless it exceeds
/// the largest that is allowed.
pub proof fn numbers_are_read_as_written(s: Seq<char>, max: nat, n: nat)
    ensures
        writes(s, n) && n <= max ==> number_of(s, max) == Ok::<nat, NumberError>(n),
        writes(s, n) && n > max ==> number_of(s, max) == Err::<nat, NumberError>(
            NumberError::TooLarge,
        ),
        number_of(s, max) == Ok::<nat, NumberError>(n) ==> writes(s, n) && n <= max,
        s.len() == 0 ==> number_of(s, max) == Err::<nat, NumberError>(NumberError::Empty),
{
    if s.len() > 0 {
        if s[0] == '+' {
            digits_are_read(s.drop_first(), max);
        } else {
            digits_are_read(s, max);
        }
    }
}

/// A text is read as a number of 32 bits exactly where it writes one.
pub proof fn u32_is_read_as_written(s: Seq<char>, n: u32)
    ensures
        number_u32(s) == Some(n) <==> writes(s, n as nat),
        number_u32(s) is None <==> forall|m: u32| !#[trigger] writes(s, m as nat),
{
    numbers_are_read_as_written(s, u32::MAX as nat, n as nat);
    if number_u32(s) is Some {
        let m = number_u32(s)->0;
        numbers_are_read_as_written(s, u32::MAX as nat, m as nat);
        let v = number_of(s, u32::MAX as nat)->Ok_0;
        numbers_are_read_as_written(s, u32::MAX as nat, v);
        assert(writes(s, m as nat));
    } else {
        assert forall|m: u32| !#[trigger] writes(s, m as nat) by {
            numbers_are_read_as_written(s, u32::MAX as nat, m as nat);
        }
    }
}

/// A number is written in digits that are worth it, without a zero before other digits.
pub proof fn decimal_is_worth_number(n: nat)
    ensures
        writes(decimal(n), n),
        decimal(n).len() > 1 ==> decimal(n)[0] != '0',
    decreases n,
{
    if n < 10 {
        assert(decimal(n).drop_last() =~= Seq::empty());
        assert(worth(Seq::<char>::empty()) == 0);
        assert(decimal(n).last() as int == 48 + n);
    } else {
        let front = decimal(n / 10);
        decimal_is_worth_number(n / 10);
        assert(decimal(n).drop_last() =~= front);
        assert(digit_char(n % 10) as int == 48 + n % 10);
        assert(front.len() > 0);
        assert(decimal(n)[0] == front[0]);
        if front.len() == 1 {
            assert(front.drop_last() =~= Seq::empty());
            assert(worth(front) == front[0] as int - 48) by {
                assert(worth(front.drop_last()) == 0);
            }
        }
        lemma_decimal_digits(n / 10, n / 10);
        assert(all_digits(decimal(n))) by {
            assert forall|i: int| 0 <= i < decimal(n).len() implies 48 <= #[trigger] decimal(
                n,
            )[i] as int <= 57 by {
                if i < front.len() {
                    assert(decimal(n)[i] == front[i]);
                }
            }
        }
    }
}

/// Just the words `true` and `false` are flags.
pub proof fn flags_are_words(s: Seq<char>)
    ensures
        flag_of(s) == Some(true) <==> s == "true"@,
        flag_of(s) == Some(false) <==> s == "false"@,
{
    reveal_strlit("true");
    reveal_strlit("false");
    assert("true"@.len() != "false"@.len());
}

/// A text that writes no number is refused for the first character that is no digit, unless
/// the digits before it are worth too much already; a plus alone counts as no digit.
pub proof fn refusals_tell_what_is_wrong(s: Seq<char>, max: nat, k: int)
    requires
        s.len() > 0,
    ensures
        s == seq!['+'] ==> number_of(s, max) == Err::<nat, NumberError>(NumberError::InvalidDigit),
        ({
            let digits = if s[0] == '+' {
                s.drop_first()
            } else {
                s
            };
            &&& 0 <= k < digits.len() && all_digits(digits.take(k)) && worth(digits.take(k)) <= max
                && !(48 <= digits[k] as int <= 57) ==> number_of(s, max) == Err::<
                nat,
                NumberError,
            >(NumberError::InvalidDigit)
            &&& 0 <= k <= digits.len() && all_digits(digits.take(k)) && worth(digits.take(k)) > max
                ==> number_of(s, max) == Err::<nat, NumberError>(NumberError::TooLarge)
        }),
{
    let digits = if s[0] == '+' {
        s.drop_first()
    } else {
        s
    };
    if 0 <= k < digits.len() && all_digits(digits.take(k)) && worth(digits.take(k)) <= max && !(48
        <= digits[k] as int <= 57) {
        digits_are_read(digits.take(k), max);
        assert(digits.take(k + 1).drop_last() =~= digits.take(k));
        assert(digits.take(k + 1).last() == digits[k]);
        lemma_read_digits_err(digits, k + 1, max);
    }
    if 0 <= k <= digits.len() && all_digits(digits.take(k)) && worth(digits.take(k)) > max {
        digits_are_read(digits.take(k), max);
        lemma_read_digits_err(digits, k, max);
        assert(digits.len() > 0) by {
            if digits.len() == 0 {
                assert(digits.take(k) =~= Seq::empty());
            }
        }
    }
}

} // verus!
