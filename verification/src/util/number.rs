//! Reading numbers.
use crate::util::text::{chars_of, push_char};
use vstd::prelude::*;

verus! {

/// Whether a character is a decimal digit.
pub open spec fn digit(c: char) -> bool {
    '0' <= c <= '9'
}

/// The number that decimal digits stand for.
pub open spec fn digits_value(s: Seq<char>) -> int
    decreases s.len(),
{
    if s.len() == 0 {
        0
    } else {
        10 * digits_value(s.drop_last()) + (s.last() as int - '0' as int)
    }
}

/// Whether a text is one or more decimal digits.
pub open spec fn is_digits(s: Seq<char>) -> bool {
    s.len() > 0 && forall|i: int| 0 <= i < s.len() ==> digit(#[trigger] s[i])
}

/// A number with an optional sign in front.
pub open spec fn signed_value(s: Seq<char>) -> Option<int> {
    if s.len() > 0 && s[0] == '-' {
        if is_digits(s.skip(1)) {
            Some(-digits_value(s.skip(1)))
        } else {
            None
        }
    } else {
        let body = if s.len() > 0 && s[0] == '+' {
            s.skip(1)
        } else {
            s
        };
        if is_digits(body) {
            Some(digits_value(body))
        } else {
            None
        }
    }
}

/// A number with an optional sign in front, if it fits 32 bits.
pub open spec fn i32_value(s: Seq<char>) -> Option<int> {
    match signed_value(s) {
        Some(n) if i32::MIN <= n <= i32::MAX => Some(n),
        _ => None,
    }
}

pub(crate) fn is_digit(c: char) -> (r: bool)
    ensures
        r == digit(c),
{
    '0' <= c && c <= '9'
}

fn digit_value(c: char) -> (r: u64)
    requires
        digit(c),
    ensures
        r == c as int - '0' as int,
        r <= 9,
{
    (c as u32 - '0' as u32) as u64
}

/// Reads a number with an optional sign in front.
pub fn parse_i32(text: &str) -> (r: Option<i32>)
    ensures
        i32_value(text@) == (match r {
            Some(n) => Some(n as int),
            None => None::<int>,
        }),
{
    let chars = chars_of(text);
    let n: usize = chars.len();
    if n == 0 {
        return None;
    }
    let negative = chars[0] == '-';
    let start: usize = if chars[0] == '-' || chars[0] == '+' {
        1
    } else {
        0
    };
    let ghost body = chars@.skip(start as int);
    proof {
        assert(chars@.skip(0) =~= chars@);
        assert(signed_value(text@) == (if !is_digits(body) {
            None
        } else if negative {
            Some(-digits_value(body))
        } else {
            Some(digits_value(body))
        }));
    }
    if start == n {
        proof {
            assert(body.len() == 0);
        }
        return None;
    }
    let mut value: u64 = 0;
    let mut exact = true;
    let mut i: usize = start;
    proof {
        assert(body.take(0) =~= Seq::empty());
    }
    while i < n
        invariant
            start <= i <= n == chars@.len(),
            body == chars@.skip(start as int),
            forall|j: int| 0 <= j < i - start ==> digit(#[trigger] body[j]),
            value <= 2147483648,
            n > 0,
            chars@ == text@,
            negative == (chars@[0] == '-'),
            start < n,
            signed_value(text@) == (if !is_digits(body) {
                None
            } else if negative {
                Some(-digits_value(body))
            } else {
                Some(digits_value(body))
            }),
            exact ==> value == digits_value(body.take(i - start)),
            !exact ==> digits_value(body.take(i - start)) > 2147483648,
        decreases n - i,
    {
        let c: char = chars[i];
        proof {
            assert(body[i - start] == c);
            assert(body.take(i - start + 1).drop_last() =~= body.take(i - start));
            assert(body.take(i - start + 1).last() == c);
        }
        if !is_digit(c) {
            proof {
                assert(!digit(body[i - start]));
            }
            return None;
        }
        if exact {
            let next: u64 = 10 * value + digit_value(c);
            if next <= 2147483648 {
                value = next;
            } else {
                exact = false;
            }
        }
        i += 1;
    }
    proof {
        assert(body.take(n - start) =~= body);
        assert(is_digits(body));
    }
    if !exact {
        return None;
    }
    if negative {
        Some((-(value as i64)) as i32)
    } else if value <= 2147483647 {
        Some(value as i32)
    } else {
        None
    }
}

/// A number in decimal digits.
pub open spec fn decimal(n: nat) -> Seq<char>
    decreases n,
{
    let last = ('0' as int + n % 10) as u8 as char;
    if n < 10 {
        seq![last]
    } else {
        decimal(n / 10).push(last)
    }
}

/// Appends a number in decimal digits.
pub fn push_decimal(out: &mut String, n: usize)
    ensures
        final(out)@ == old(out)@ + decimal(n as nat),
    decreases n,
{
    if n >= 10 {
        push_decimal(out, n / 10);
    }
    push_char(out, (48 + (n % 10) as u8) as char);
    proof {
        assert(out@ =~= old(out)@ + decimal(n as nat));
    }
}

proof fn lemma_decimal(n: nat)
    ensures
        is_digits(decimal(n)),
        digits_value(decimal(n)) == n,
    decreases n,
{
    let last = ('0' as int + n % 10) as u8 as char;
    let all = decimal(n);
    assert(last as int == 48 + n % 10);
    if n < 10 {
        assert(all =~= seq![last]);
        assert(all.drop_last() =~= Seq::empty());
        assert(digits_value(all.drop_last()) == 0);
        assert(all.last() == last);
    } else {
        lemma_decimal(n / 10);
        let front = decimal(n / 10);
        assert(all.drop_last() =~= front);
        assert(all.last() == last);
        assert forall|i: int| 0 <= i < all.len() implies digit(#[trigger] all[i]) by {
            if i < front.len() {
                assert(digit(front[i]));
            }
        }
    }
}

/// A number that is written in decimal digits, with a sign or without, is read
/// back, if it fits 32 bits.
pub proof fn law_numbers_are_read_back(n: nat)
    ensures
        i32_value(decimal(n)) == if n <= 2147483647 {
            Some(n as int)
        } else {
            None
        },
        i32_value(seq!['+'] + decimal(n)) == if n <= 2147483647 {
            Some(n as int)
        } else {
            None
        },
        i32_value(seq!['-'] + decimal(n)) == if n <= 2147483648 {
            Some(-(n as int))
        } else {
            None
        },
{
    lemma_decimal(n);
    let text = decimal(n);
    assert(digit(text[0]));
    assert((seq!['+'] + text).skip(1) =~= text);
    assert((seq!['-'] + text).skip(1) =~= text);
}

/// A text with a character that is no digit is no number, but for a sign in
/// front; nor is one without any digit.
pub proof fn law_other_texts_are_no_numbers(text: Seq<char>, i: int)
    ensures
        text.len() == 0 ==> i32_value(text) is None,
        text.len() == 1 && (text[0] == '-' || text[0] == '+') ==> i32_value(text) is None,
        0 <= i < text.len() && !(48 <= text[i] as int <= 57) && !(i == 0 && (text[0] == '-'
            || text[0] == '+')) ==> i32_value(text) is None,
{
    if 0 <= i < text.len() && !(48 <= text[i] as int <= 57) {
        assert(!digit(text[i]));
        if i > 0 {
            assert(text.skip(1)[i - 1] == text[i]);
        }
    }
}

} // verus!
