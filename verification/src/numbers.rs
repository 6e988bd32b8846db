//! Numbers as decimal text.

use vstd::prelude::*;
use crate::text;

verus! {

/// The character of a digit.
pub open spec fn digit(d: int) -> char {
    (48 + d) as u8 as char
}

/// The decimal text of a number.
pub open spec fn decimal(n: nat) -> Seq<char>
    decreases n,
{
    if n < 10 {
        seq![digit(n as int)]
    } else {
        decimal(n / 10).push(digit((n % 10) as int))
    }
}

/// The value of a text of digits; none for an empty text or another
/// character.
pub open spec fn digits_value(s: Seq<char>) -> Option<nat>
    decreases s.len(),
{
    if s.len() == 0 || !text::is_digit(s.last()) {
        None
    } else {
        let d = (s.last() as u32 - 48) as nat;
        if s.len() == 1 {
            Some(d)
        } else {
            match digits_value(s.drop_last()) {
                Some(n) => Some(10 * n + d),
                None => None,
            }
        }
    }
}

/// The number that a text stands for: digits, with or without a plus in
/// front, up to the largest number of 64 bits.
pub open spec fn parse(s: Seq<char>) -> Option<nat> {
    let body = if s.len() > 0 && s[0] == '+' {
        s.drop_first()
    } else {
        s
    };
    match digits_value(body) {
        Some(n) => if n <= u64::MAX {
            Some(n)
        } else {
            None
        },
        None => None,
    }
}

proof fn lemma_digit(d: nat)
    requires
        d < 10,
    ensures
        text::is_digit(digit(d as int)),
        digit(d as int) as u32 - 48 == d,
        digit(d as int) != '+',
{
}

proof fn lemma_decimal(n: nat)
    ensures
        decimal(n).len() > 0,
        digits_value(decimal(n)) == Some(n),
        decimal(n)[0] != '+',
    decreases n,
{
    if n < 10 {
        lemma_digit(n);
    } else {
        lemma_decimal(n / 10);
        lemma_digit(n % 10);
        assert(decimal(n).drop_last() =~= decimal(n / 10));
        assert(decimal(n)[0] == decimal(n / 10)[0]);
    }
}

/// The text of a number stands for that number.
pub proof fn decimal_round_trip(n: u64)
    ensures
        parse(decimal(n as nat)) == Some(n as nat),
{
    lemma_decimal(n as nat);
}

fn digit_char(d: u8) -> (r: char)
    requires
        d < 10,
    ensures
        r == digit(d as int),
{
    (48 + d) as char
}

/// The decimal text of a number.
pub fn number_text(n: u128) -> (r: String)
    ensures
        r@ == decimal(n as nat),
    decreases n,
{
    let mut s = if n < 10 {
        String::new()
    } else {
        number_text(n / 10)
    };
    let d: u8 = (n % 10) as u8;
    s.push(digit_char(d));
    assert(n < 10 ==> s@ =~= seq![digit(n as int)]);
    s
}

proof fn lemma_prefix_bound(s: Seq<char>, k: int)
    requires
        0 < k <= s.len(),
        digits_value(s) is Some,
    ensures
        digits_value(s.take(k)) is Some,
        digits_value(s.take(k))->0 <= digits_value(s)->0,
    decreases s.len() - k,
{
    if k == s.len() {
        assert(s.take(k) =~= s);
    } else {
        lemma_prefix_bound(s, k + 1);
        assert(s.take(k + 1).drop_last() =~= s.take(k));
    }
}

/// The number that a text stands for.
pub fn parse_number(s: &str) -> (r: Option<u64>)
    ensures
        match r {
            Some(n) => parse(s@) == Some(n as nat),
            None => parse(s@) is None,
        },
{
    let v = text::chars_of(s);
    let from: usize = if v.len() > 0 && v[0] == '+' {
        1
    } else {
        0
    };
    let ghost body = v@.subrange(from as int, v@.len() as int);
    assert(from == 1 ==> body =~= s@.drop_first());
    assert(from == 0 ==> body =~= s@);
    if from == v.len() {
        return None;
    }
    let mut n: u64 = 0;
    let mut i: usize = from;
    while i < v.len()
        invariant
            from <= i <= v@.len(),
            from < v@.len(),
            body == v@.subrange(from as int, v@.len() as int),
            parse(s@) == match digits_value(body) {
                Some(m) => if m <= u64::MAX {
                    Some(m)
                } else {
                    None
                },
                None => None,
            },
            i == from ==> n == 0,
            i > from ==> digits_value(body.take(i - from)) == Some(n as nat),
        decreases v@.len() - i,
    {
        let c = v[i];
        let ghost k = i - from;
        assert(body[k] == c);
        assert(body.take(k + 1).last() == c);
        assert(body.take(k + 1).drop_last() =~= body.take(k));
        if c < '0' || c > '9' {
            proof {
                if digits_value(body) is Some {
                    lemma_prefix_bound(body, k + 1);
                }
            }
            return None;
        }
        let d: u64 = (c as u32 - 48) as u64;
        if n > (u64::MAX - d) / 10 {
            proof {
                if digits_value(body) is Some {
                    lemma_prefix_bound(body, k + 1);
                    assert(k > 0);
                    assert(10 * n + d > u64::MAX);
                }
            }
            return None;
        }
        n = 10 * n + d;
        i += 1;
    }
    assert(body.take(i - from) =~= body);
    Some(n)
}

/// A number is read digit by digit, the highest first; a plus before it makes no
/// difference, and any other character leaves no number.
pub proof fn numbers_are_read_by_digits(s: Seq<char>, d: int, c: char)
    requires
        0 <= d <= 9,
    ensures
        s.len() > 0 && digits_value(s) is Some ==> digits_value(s.push(digit(d))) == Some(
            (10 * digits_value(s)->0 + d) as nat,
        ),
        digits_value(seq![digit(d)]) == Some(d as nat),
        !('0' <= c <= '9') ==> digits_value(s.push(c)) is None,
        digits_value(seq![]) is None,
        s.len() > 0 && s[0] != '+' ==> parse(seq!['+'] + s) == parse(s),
        digits_value(s) matches Some(n) ==> s[0] != '+' ==> parse(s) == if n <= u64::MAX {
            Some(n)
        } else {
            None
        },
{
    lemma_digit(d as nat);
    assert(s.push(digit(d)).drop_last() =~= s);
    assert((seq!['+'] + s).drop_first() =~= s);
}

/// The decimal form of a number is made of digits, the highest first.
pub proof fn decimals_are_digits(n: nat)
    ensures
        n < 10 ==> decimal(n).len() == 1 && decimal(n)[0] as u32 == 48 + n,
        n >= 10 ==> decimal(n).drop_last() == decimal(n / 10) && decimal(n).last() as u32 == 48 + n
            % 10,
{
    if n >= 10 {
        assert(decimal(n).drop_last() =~= decimal(n / 10));
    }
}

/// Zeros before a number make no difference to its value.
pub proof fn zeros_change_nothing(zeros: Seq<char>, d: Seq<char>, n: u64)
    requires
        d == decimal(n as nat),
        forall|i: int| 0 <= i < zeros.len() ==> #[trigger] zeros[i] == '0',
    ensures
        parse(zeros + d) == Some(n as nat),
{
    lemma_decimal(n as nat);
    lemma_zeros(zeros, d);
    if zeros.len() > 0 {
        assert((zeros + d)[0] == zeros[0]);
    } else {
        assert(zeros + d =~= d);
    }
}

proof fn lemma_zeros(zeros: Seq<char>, d: Seq<char>)
    requires
        d.len() > 0,
        digits_value(d) is Some,
        forall|i: int| 0 <= i < zeros.len() ==> #[trigger] zeros[i] == '0',
    ensures
        digits_value(zeros + d) == digits_value(d),
    decreases d.len(),
{
    let s = zeros + d;
    assert(s.last() == d.last());
    if d.len() == 1 {
        if zeros.len() == 0 {
            assert(s =~= d);
        } else {
            assert(s.drop_last() =~= zeros);
            lemma_only_zeros(zeros);
        }
    } else {
        lemma_zeros(zeros, d.drop_last());
        assert(s.drop_last() =~= zeros + d.drop_last());
    }
}

proof fn lemma_only_zeros(zeros: Seq<char>)
    requires
        zeros.len() > 0,
        forall|i: int| 0 <= i < zeros.len() ==> #[trigger] zeros[i] == '0',
    ensures
        digits_value(zeros) == Some(0nat),
    decreases zeros.len(),
{
    assert(zeros.last() == '0');
    if zeros.len() > 1 {
        lemma_only_zeros(zeros.drop_last());
    }
}

} // verus!
