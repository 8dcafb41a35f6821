//! Decimal notation of machine integers: writing a number as digits, and reading digits back.

use vstd::prelude::*;
use crate::text::chars_of;

verus! {

/// The digit character for a number below ten.
pub open spec fn digit_char(d: nat) -> char {
    if d == 0 {
        '0'
    } else if d == 1 {
        '1'
    } else if d == 2 {
        '2'
    } else if d == 3 {
        '3'
    } else if d == 4 {
        '4'
    } else if d == 5 {
        '5'
    } else if d == 6 {
        '6'
    } else if d == 7 {
        '7'
    } else if d == 8 {
        '8'
    } else {
        '9'
    }
}

/// The number that a digit character stands for; `None` for any other character.
pub open spec fn digit_value(c: char) -> Option<nat> {
    if c == '0' {
        Some(0nat)
    } else if c == '1' {
        Some(1nat)
    } else if c == '2' {
        Some(2nat)
    } else if c == '3' {
        Some(3nat)
    } else if c == '4' {
        Some(4nat)
    } else if c == '5' {
        Some(5nat)
    } else if c == '6' {
        Some(6nat)
    } else if c == '7' {
        Some(7nat)
    } else if c == '8' {
        Some(8nat)
    } else if c == '9' {
        Some(9nat)
    } else {
        None
    }
}

/// The decimal digits of `n`, most significant first, without leading zeros.
pub open spec fn digits(n: nat) -> Seq<char>
    decreases n,
{
    if n < 10 {
        seq![digit_char(n)]
    } else {
        digits(n / 10).push(digit_char(n % 10))
    }
}

/// Every character of `s` is a decimal digit.
pub open spec fn all_digits(s: Seq<char>) -> bool {
    forall|i: int| 0 <= i < s.len() ==> digit_value(#[trigger] s[i]) is Some
}

/// The number that the digits `s` write, most significant first.
pub open spec fn number(s: Seq<char>) -> nat
    decreases s.len(),
{
    if s.len() == 0 {
        0
    } else {
        match digit_value(s.last()) {
            Some(d) => number(s.drop_last()) * 10 + d,
            None => number(s.drop_last()) * 10,
        }
    }
}

/// The number that the text `s` stands for, if it is one that does not exceed `max`: an
/// optional `+`, then one or more decimal digits and nothing else.
pub open spec fn parsed_decimal(s: Seq<char>, max: nat) -> Option<nat> {
    let body = if s.len() > 0 && s[0] == '+' {
        s.drop_first()
    } else {
        s
    };
    if body.len() > 0 && all_digits(body) && number(body) <= max {
        Some(number(body))
    } else {
        None
    }
}

/// The digits of a number are digits, start with no sign, and write that number.
pub proof fn lemma_digits_number(n: nat)
    ensures
        digits(n).len() > 0,
        all_digits(digits(n)),
        digits(n)[0] != '+',
        number(digits(n)) == n,
    decreases n,
{
    if n < 10 {
        assert(digits(n).drop_last() =~= Seq::<char>::empty());
        assert(number(digits(n).drop_last()) == 0);
    } else {
        lemma_digits_number(n / 10);
        let head = digits(n / 10);
        assert(digits(n).drop_last() =~= head);
        assert(digit_value(digit_char(n % 10)) == Some(n % 10));
    }
}

/// Reading the digits of a number that does not exceed the limit gives the number back.
pub proof fn lemma_decimal_round_trip(n: nat, max: nat)
    requires
        n <= max,
    ensures
        parsed_decimal(digits(n), max) == Some(n),
{
    lemma_digits_number(n);
}

/// Digits that follow can only make the number larger.
pub proof fn lemma_number_grows(s: Seq<char>, k: int)
    requires
        0 <= k <= s.len(),
    ensures
        number(s.take(k)) <= number(s),
    decreases s.len() - k,
{
    if k < s.len() {
        lemma_number_grows(s, k + 1);
        assert(s.take(k + 1).drop_last() =~= s.take(k));
    } else {
        assert(s.take(k) =~= s);
    }
}

fn digit_to_char(d: usize) -> (c: char)
    requires
        d < 10,
    ensures
        c == digit_char(d as nat),
{
    if d == 0 {
        '0'
    } else if d == 1 {
        '1'
    } else if d == 2 {
        '2'
    } else if d == 3 {
        '3'
    } else if d == 4 {
        '4'
    } else if d == 5 {
        '5'
    } else if d == 6 {
        '6'
    } else if d == 7 {
        '7'
    } else if d == 8 {
        '8'
    } else {
        '9'
    }
}

fn char_to_digit(c: char) -> (d: Option<usize>)
    ensures
        match d {
            Some(v) => digit_value(c) == Some(v as nat),
            None => digit_value(c) is None,
        },
{
    if c == '0' {
        Some(0)
    } else if c == '1' {
        Some(1)
    } else if c == '2' {
        Some(2)
    } else if c == '3' {
        Some(3)
    } else if c == '4' {
        Some(4)
    } else if c == '5' {
        Some(5)
    } else if c == '6' {
        Some(6)
    } else if c == '7' {
        Some(7)
    } else if c == '8' {
        Some(8)
    } else if c == '9' {
        Some(9)
    } else {
        None
    }
}

/// The decimal digits of `n` as a string.
pub fn decimal_text(n: usize) -> (r: String)
    ensures
        r@ == digits(n as nat),
{
    let mut low: Vec<char> = Vec::new();
    let mut m: usize = n;
    while m >= 10
        invariant
            digits(n as nat) == digits(m as nat) + Seq::new(low.len() as nat, |j: int| low@[low.len() - 1 - j]),
        decreases m,
    {
        let ghost tail = Seq::new(low.len() as nat, |j: int| low@[low.len() - 1 - j]);
        let c = digit_to_char(m % 10);
        low.push(c);
        proof {
            let tail2 = Seq::new(low.len() as nat, |j: int| low@[low.len() - 1 - j]);
            assert(digits((m / 10) as nat).push(c) + tail =~= digits((m / 10) as nat) + tail2);
        }
        m = m / 10;
    }
    let ghost tail = Seq::new(low.len() as nat, |j: int| low@[low.len() - 1 - j]);
    let c = digit_to_char(m);
    low.push(c);
    let ghost all = Seq::new(low.len() as nat, |j: int| low@[low.len() - 1 - j]);
    proof {
        assert(seq![c] + tail =~= all);
    }
    let mut out = String::new();
    let mut i: usize = low.len();
    while i > 0
        invariant
            i <= low.len(),
            all == Seq::new(low.len() as nat, |j: int| low@[low.len() - 1 - j]),
            out@ == all.take(low.len() - i),
        decreases i,
    {
        i -= 1;
        out.push(low[i]);
        proof {
            assert(all.take(low.len() - i) =~= all.take(low.len() - i - 1).push(low@[i as int]));
        }
    }
    proof {
        assert(all.take(low.len() as int) =~= all);
    }
    out
}

/// The number that `s` stands for in decimal notation, if it stands for one that fits.
pub fn parse_decimal(s: &str) -> (r: Option<usize>)
    ensures
        match r {
            Some(n) => parsed_decimal(s@, usize::MAX as nat) == Some(n as nat),
            None => parsed_decimal(s@, usize::MAX as nat) is None,
        },
{
    let cs = chars_of(s);
    let start: usize = if cs.len() > 0 && cs[0] == '+' {
        1
    } else {
        0
    };
    let ghost body = cs@.subrange(start as int, cs.len() as int);
    proof {
        if start == 1 {
            assert(body =~= s@.drop_first());
        } else {
            assert(body =~= s@);
        }
    }
    if start == cs.len() {
        return None;
    }
    let mut acc: usize = 0;
    let mut i: usize = start;
    proof {
        assert(body.take(0) =~= Seq::<char>::empty());
    }
    while i < cs.len()
        invariant
            start <= i <= cs.len(),
            body == cs@.subrange(start as int, cs.len() as int),
            body == if s@.len() > 0 && s@[0] == '+' {
                s@.drop_first()
            } else {
                s@
            },
            all_digits(body.take(i - start)),
            acc == number(body.take(i - start)),
        decreases cs.len() - i,
    {
        let ghost prefix = body.take(i - start);
        let ghost next = body.take(i - start + 1);
        proof {
            assert(next.drop_last() =~= prefix);
            assert(next.last() == cs@[i as int]);
            lemma_number_grows(body, i - start + 1);
        }
        match char_to_digit(cs[i]) {
            None => {
                proof {
                    assert(body[i - start] == cs@[i as int]);
                }
                return None;
            },
            Some(d) => {
                let tens = match acc.checked_mul(10) {
                    Some(t) => t,
                    None => {
                        return None;
                    },
                };
                acc = match tens.checked_add(d) {
                    Some(t) => t,
                    None => {
                        return None;
                    },
                };
                proof {
                    assert forall|k: int| 0 <= k < next.len() implies digit_value(#[trigger] next[k]) is Some by {
                        if k < prefix.len() {
                            assert(next[k] == prefix[k]);
                        }
                    }
                }
            },
        }
        i += 1;
    }
    proof {
        assert(body.take(i - start) =~= body);
    }
    Some(acc)
}

} // verus!
