//! Numbers and lists as they are written in text: decimal numbers, and
//! items parted by a separator. Text is taken as bytes.

use vstd::prelude::*;

verus! {

/// The digit `0`.
pub const DIGIT_ZERO: u8 = 48;

/// The digit `9`.
pub const DIGIT_NINE: u8 = 57;

/// The sign `+`.
pub const PLUS: u8 = 43;

/// Why a piece of text is no number.
#[derive(Debug, Clone, Copy, PartialEq, Eq, Structural)]
pub enum NumberError {
    /// The text is empty.
    Empty,
    /// The text holds something other than digits after an optional `+`,
    /// or nothing but the `+`.
    InvalidDigit,
    /// The number is above the limit.
    TooLarge,
}

/// Whether `b` is one of the digits `0` to `9`.
pub open spec fn is_digit(b: u8) -> bool {
    DIGIT_ZERO <= b <= DIGIT_NINE
}

/// Whether `s` holds digits only.
pub open spec fn all_digits(s: Seq<u8>) -> bool {
    forall|i: int| 0 <= i < s.len() ==> is_digit(#[trigger] s[i])
}

/// The number that the digits of `s` write in base ten.
pub open spec fn digits_value(s: Seq<u8>) -> nat
    decreases s.len(),
{
    if s.len() == 0 {
        0
    } else {
        digits_value(s.drop_last()) * 10 + (s.last() - DIGIT_ZERO) as nat
    }
}

/// `s` without the `+` that may stand in front of a number.
pub open spec fn unsigned(s: Seq<u8>) -> Seq<u8> {
    if s.len() > 0 && s[0] == PLUS {
        s.subrange(1, s.len() as int)
    } else {
        s
    }
}

/// The number that `s` writes, if it writes one that is at most `limit`:
/// an optional `+`, then one or more digits, and nothing else.
pub open spec fn number_in(s: Seq<u8>, limit: nat) -> Result<nat, NumberError> {
    if s.len() == 0 {
        Err(NumberError::Empty)
    } else if unsigned(s).len() == 0 || !all_digits(unsigned(s)) {
        Err(NumberError::InvalidDigit)
    } else if digits_value(unsigned(s)) > limit {
        Err(NumberError::TooLarge)
    } else {
        Ok(digits_value(unsigned(s)))
    }
}

/// Reads a decimal number that is at most `limit`.
pub fn parse_number(text: &[u8], limit: usize) -> (number: Result<usize, NumberError>)
    ensures
        match number {
            Ok(n) => number_in(text@, limit as nat) == Ok::<nat, NumberError>(n as nat),
            Err(e) => number_in(text@, limit as nat) == Err::<nat, NumberError>(e),
        },
{
    if text.len() == 0 {
        return Err(NumberError::Empty);
    }
    let start: usize = if text[0] == PLUS {
        1
    } else {
        0
    };
    let ghost body = unsigned(text@);
    if start == text.len() {
        return Err(NumberError::InvalidDigit);
    }
    let mut value: usize = 0;
    let mut fits = true;
    let mut i: usize = start;
    while i < text.len()
        invariant
            start <= i <= text.len(),
            start < text.len(),
            body == unsigned(text@),
            body == text@.subrange(start as int, text@.len() as int),
            all_digits(body.subrange(0, i - start)),
            fits ==> value == digits_value(body.subrange(0, i - start)) && value <= limit,
            !fits ==> digits_value(body.subrange(0, i - start)) > limit,
        decreases text.len() - i,
    {
        let b = text[i];
        if b < DIGIT_ZERO || b > DIGIT_NINE {
            proof {
                assert(body[i - start] == b);
                assert(!is_digit(body[i - start]));
            }
            return Err(NumberError::InvalidDigit);
        }
        let digit: usize = (b - DIGIT_ZERO) as usize;
        proof {
            let shorter = body.subrange(0, i - start);
            let longer = body.subrange(0, i + 1 - start);
            assert(longer.drop_last() == shorter);
            assert(longer.last() == b);
            assert(digits_value(longer) == digits_value(shorter) * 10 + digit);
            assert forall|j: int| 0 <= j < longer.len() implies is_digit(#[trigger] longer[j]) by {
                if j < shorter.len() {
                    assert(longer[j] == shorter[j]);
                }
            }
        }
        if fits {
            if digit > limit || value > (limit - digit) / 10 {
                fits = false;
            } else {
                value = value * 10 + digit;
            }
        }
        i = i + 1;
    }
    proof {
        assert(body.subrange(0, i - start) == body);
    }
    if fits {
        Ok(value)
    } else {
        Err(NumberError::TooLarge)
    }
}

/// Where the separator first stands in `s`: its position, or the length of
/// `s` if it stands nowhere.
pub open spec fn first_sep(s: Seq<u8>, sep: u8) -> int
    decreases s.len(),
{
    if s.len() == 0 || s[0] == sep {
        0
    } else {
        1 + first_sep(s.subrange(1, s.len() as int), sep)
    }
}

/// The items of `s` that the separator parts: what stands before the first
/// separator, then the items of what stands behind it. Text without a
/// separator is one item, also where it is empty.
pub open spec fn pieces(s: Seq<u8>, sep: u8) -> Seq<Seq<u8>>
    decreases s.len(),
{
    let at = first_sep(s, sep);
    if 0 <= at < s.len() {
        seq![s.subrange(0, at)] + pieces(s.subrange(at + 1, s.len() as int), sep)
    } else {
        seq![s]
    }
}

/// What the vectors of `parts` hold, one after the other.
pub open spec fn views(parts: Seq<Vec<u8>>) -> Seq<Seq<u8>> {
    Seq::new(parts.len(), |i: int| parts[i]@)
}

proof fn lemma_first_sep(s: Seq<u8>, sep: u8, at: int)
    requires
        0 <= at <= s.len(),
        forall|i: int| 0 <= i < at ==> s[i] != sep,
        at < s.len() ==> s[at] == sep,
    ensures
        first_sep(s, sep) == at,
    decreases at,
{
    if at > 0 {
        let rest = s.subrange(1, s.len() as int);
        assert forall|i: int| 0 <= i < at - 1 implies rest[i] != sep by {
            assert(rest[i] == s[i + 1]);
        }
        lemma_first_sep(rest, sep, at - 1);
    }
}

/// Parts `text` at each separator.
pub fn split(text: &[u8], sep: u8) -> (parts: Vec<Vec<u8>>)
    ensures
        views(parts@) == pieces(text@, sep),
{
    let mut parts: Vec<Vec<u8>> = Vec::new();
    let mut current: Vec<u8> = Vec::new();
    let mut i: usize = 0;
    proof {
        assert(current@ + text@.subrange(0, text@.len() as int) == text@);
        assert(views(parts@) + pieces(text@, sep) == pieces(text@, sep));
    }
    while i < text.len()
        invariant
            i <= text.len(),
            forall|j: int| 0 <= j < current@.len() ==> current@[j] != sep,
            pieces(text@, sep) == views(parts@) + pieces(
                current@ + text@.subrange(i as int, text@.len() as int),
                sep,
            ),
        decreases text.len() - i,
    {
        let b = text[i];
        let ghost rest = text@.subrange(i as int, text@.len() as int);
        let ghost after = text@.subrange(i + 1, text@.len() as int);
        let ghost whole = current@ + rest;
        if b == sep {
            proof {
                assert(whole[current@.len() as int] == sep);
                lemma_first_sep(whole, sep, current@.len() as int);
                assert(whole.subrange(0, current@.len() as int) == current@);
                assert(whole.subrange(current@.len() as int + 1, whole.len() as int) == after);
                assert(Seq::<u8>::empty() + after == after);
                assert(views(parts@.push(current)) == views(parts@) + seq![current@]);
            }
            parts.push(current);
            current = Vec::new();
        } else {
            proof {
                assert(current@.push(b) + after == whole);
            }
            current.push(b);
        }
        i = i + 1;
    }
    proof {
        let rest = text@.subrange(i as int, text@.len() as int);
        assert(current@ + rest == current@);
        lemma_first_sep(current@, sep, current@.len() as int);
        assert(views(parts@.push(current)) == views(parts@) + seq![current@]);
    }
    parts.push(current);
    parts
}

} // verus!
