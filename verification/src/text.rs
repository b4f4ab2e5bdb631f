//! Numbers rendered as text.

use vstd::prelude::*;
use vstd::string::*;

verus! {

/// The digit of value `d`, for `d` below sixteen.
pub open spec fn digit(d: int) -> char {
    if d == 0 {
        '0'
    } else if d == 1 {
        '1'
    } else if d == 2 {
        '2'
    } else if d == 3 {
        '3'
    } else if d == 4 {
        '4'
    } else if d == 5 {
        '5'
    } else if d == 6 {
        '6'
    } else if d == 7 {
        '7'
    } else if d == 8 {
        '8'
    } else if d == 9 {
        '9'
    } else if d == 10 {
        'a'
    } else if d == 11 {
        'b'
    } else if d == 12 {
        'c'
    } else if d == 13 {
        'd'
    } else if d == 14 {
        'e'
    } else {
        'f'
    }
}

/// `n` in base `base`, without leading zeros.
pub open spec fn digits(n: nat, base: nat) -> Seq<char>
    decreases n,
{
    if base < 2 || n < base {
        seq![digit(n as int)]
    } else {
        proof {
            lemma_quotient_is_smaller(n, base);
        }
        digits(n / base, base).push(digit((n % base) as int))
    }
}

/// Dividing by a base leaves less.
pub proof fn lemma_quotient_is_smaller(n: nat, base: nat)
    requires
        2 <= base <= n,
    ensures
        n / base < n,
{
    assert(n / base < n) by (nonlinear_arith)
        requires
            2 <= base <= n,
    ;
}

/// `n` in decimal, with a minus sign where it is negative.
pub open spec fn decimal(n: int) -> Seq<char> {
    if n < 0 {
        seq!['-'] + digits((-n) as nat, 10)
    } else {
        digits(n as nat, 10)
    }
}

/// `n` in lower-case hexadecimal, with at least two digits.
pub open spec fn hex2(n: nat) -> Seq<char> {
    if n < 16 {
        seq!['0'] + digits(n, 16)
    } else {
        digits(n, 16)
    }
}

/// Different numbers have different decimal digits.
pub proof fn law_digits_are_distinct(a: nat, b: nat)
    requires
        digits(a, 10) == digits(b, 10),
    ensures
        a == b,
    decreases a,
{
    lemma_digits_nonempty(a / 10, 10);
    lemma_digits_nonempty(b / 10, 10);
    assert(digits(a, 10).last() == digit((a % 10) as int));
    assert(digits(b, 10).last() == digit((b % 10) as int));
    if a >= 10 && b >= 10 {
        assert(digits(a, 10).drop_last() =~= digits(a / 10, 10));
        assert(digits(b, 10).drop_last() =~= digits(b / 10, 10));
        law_digits_are_distinct(a / 10, b / 10);
    } else if a >= 10 {
        assert(digits(a, 10).len() == digits(a / 10, 10).len() + 1);
    } else if b >= 10 {
        assert(digits(b, 10).len() == digits(b / 10, 10).len() + 1);
    }
}

proof fn lemma_digits_nonempty(n: nat, base: nat)
    ensures
        digits(n, base).len() > 0,
{
}

/// The value of a digit.
pub open spec fn worth_of(c: char) -> int {
    if c <= '9' {
        c as int - '0' as int
    } else {
        c as int - 'a' as int + 10
    }
}

/// The value of some digits in base `base`.
pub open spec fn worth(s: Seq<char>, base: int) -> int
    decreases s.len(),
{
    if s.len() == 0 {
        0
    } else {
        worth(s.drop_last(), base) * base + worth_of(s.last())
    }
}

/// The digits of a number have its value, in any base up to sixteen. None of
/// them is as large as the base, and there is no leading zero.
pub proof fn law_digits_have_the_value(n: nat, base: nat)
    requires
        2 <= base <= 16,
    ensures
        worth(digits(n, base), base as int) == n,
        digits(n, base).len() > 0,
        n > 0 ==> digits(n, base)[0] != '0',
        forall|i: int|
            0 <= i < digits(n, base).len() ==> {
                let c = #[trigger] digits(n, base)[i];
                &&& 0 <= worth_of(c) < base
                &&& '0' <= c <= '9' || 'a' <= c <= 'f'
            },
    decreases n,
{
    let s = digits(n, base);
    if n < base {
        assert(s.drop_last() =~= seq![]);
        assert(worth(s.drop_last(), base as int) == 0);
        assert(0 * (base as int) == 0);
    } else {
        lemma_quotient_is_smaller(n, base);
        law_digits_have_the_value(n / base, base);
        assert(s.drop_last() =~= digits(n / base, base));
        assert(n / base * base + n % base == n && 0 <= n % base < base && n / base > 0)
            by (nonlinear_arith)
            requires
                2 <= base <= n,
        ;
        assert(s[0] == digits(n / base, base)[0]);
        assert forall|i: int| 0 <= i < s.len() implies ({
            let c = #[trigger] s[i];
            &&& 0 <= worth_of(c) < base
            &&& '0' <= c <= '9' || 'a' <= c <= 'f'
        }) by {
            if i < s.len() - 1 {
                assert(s[i] == digits(n / base, base)[i]);
            }
        }
    }
}

/// A number is written by its digits, with a minus sign in front where it is
/// negative, and in hexadecimal with a zero in front where it has one digit.
pub proof fn law_numbers_are_written_by_their_digits(n: nat)
    ensures
        worth(decimal(n as int), 10) == n,
        n > 0 ==> decimal(-n) == seq!['-'] + decimal(n as int),
        worth(hex2(n), 16) == n,
        hex2(n).len() >= 2,
        n < 256 ==> hex2(n).len() == 2,
{
    law_digits_have_the_value(n, 10);
    law_digits_have_the_value(n, 16);
    reveal_with_fuel(worth, 3);
    if n < 16 {
        assert(digits(n, 16) =~= seq![digit(n as int)]);
        let s = hex2(n);
        assert(s =~= seq!['0', digit(n as int)]);
        assert(s.drop_last() =~= seq!['0']);
        assert(s.drop_last().drop_last() =~= seq![]);
    } else {
        lemma_digits_nonempty(n / 16, 16);
        if n < 256 {
            assert(n / 16 < 16);
            assert(digits(n / 16, 16).len() == 1);
        }
    }
}

/// Different numbers are written differently.
pub proof fn law_decimals_are_distinct(a: int, b: int)
    requires
        a != b,
    ensures
        decimal(a) != decimal(b),
{
    let x: nat = if a < 0 {
        (-a) as nat
    } else {
        a as nat
    };
    let y: nat = if b < 0 {
        (-b) as nat
    } else {
        b as nat
    };
    law_digits_have_the_value(x, 10);
    law_digits_have_the_value(y, 10);
    if decimal(a) == decimal(b) {
        assert(digits(x, 10)[0] != '-');
        assert(digits(y, 10)[0] != '-');
        if a < 0 {
            assert(decimal(a)[0] == '-');
            assert(decimal(a).skip(1) =~= digits(x, 10));
        }
        if b < 0 {
            assert(decimal(b)[0] == '-');
            assert(decimal(b).skip(1) =~= digits(y, 10));
        }
    }
}

fn digit_text(d: u64) -> (r: &'static str)
    requires
        d < 16,
    ensures
        r@ == seq![digit(d as int)],
{
    proof {
        reveal_strlit("0");
        reveal_strlit("1");
        reveal_strlit("2");
        reveal_strlit("3");
        reveal_strlit("4");
        reveal_strlit("5");
        reveal_strlit("6");
        reveal_strlit("7");
        reveal_strlit("8");
        reveal_strlit("9");
        reveal_strlit("a");
        reveal_strlit("b");
        reveal_strlit("c");
        reveal_strlit("d");
        reveal_strlit("e");
        reveal_strlit("f");
    }
    let r = match d {
        0 => "0",
        1 => "1",
        2 => "2",
        3 => "3",
        4 => "4",
        5 => "5",
        6 => "6",
        7 => "7",
        8 => "8",
        9 => "9",
        10 => "a",
        11 => "b",
        12 => "c",
        13 => "d",
        14 => "e",
        _ => "f",
    };
    assert(r@ =~= seq![digit(d as int)]);
    r
}

/// Append `n` in base `base`.
fn append_digits(s: &mut String, n: u64, base: u64)
    requires
        2 <= base <= 16,
    ensures
        final(s)@ == old(s)@ + digits(n as nat, base as nat),
    decreases n,
{
    if n >= base {
        proof {
            lemma_quotient_is_smaller(n as nat, base as nat);
        }
        append_digits(s, n / base, base);
    }
    let low: u64 = n % base;
    s.append(digit_text(low));
    assert(n < base ==> low == n) by (nonlinear_arith)
        requires
            low == n % base,
            base >= 2,
    ;
    assert(s@ =~= old(s)@ + digits(n as nat, base as nat));
}

/// Append `n` in decimal.
pub fn append_unsigned(s: &mut String, n: u64)
    ensures
        final(s)@ == old(s)@ + decimal(n as int),
{
    append_digits(s, n, 10);
}

/// Append `n` in decimal.
pub fn append_signed(s: &mut String, n: i32)
    ensures
        final(s)@ == old(s)@ + decimal(n as int),
{
    if n < 0 {
        proof {
            reveal_strlit("-");
        }
        s.append("-");
        append_digits(s, (-(n as i64)) as u64, 10);
        assert(s@ =~= old(s)@ + decimal(n as int));
    } else {
        append_digits(s, n as u64, 10);
    }
}

/// Append `n` in hexadecimal with at least two digits.
pub fn append_hex2(s: &mut String, n: u32)
    ensures
        final(s)@ == old(s)@ + hex2(n as nat),
{
    if n < 16 {
        proof {
            reveal_strlit("0");
        }
        s.append("0");
    }
    append_digits(s, n as u64, 16);
    assert(s@ =~= old(s)@ + hex2(n as nat));
}

} // verus!
