//! Numbers as text, in decimal and in hexadecimal.
use vstd::prelude::*;

verus! {

// ---------------------------------------------------------------------------
// Writing
// ---------------------------------------------------------------------------
/// The digit of value `d`: `0` to `9`, then `a` to `f`.
pub open spec fn digit(d: int) -> char {
    if d < 10 {
        ('0' as int + d) as char
    } else {
        ('a' as int + (d - 10)) as char
    }
}

/// A number written in the given radix, without leading zeros.
pub open spec fn numeral(n: nat, radix: nat) -> Seq<char>
    decreases n,
{
    if radix < 2 || n < radix {
        seq![digit(n as int)]
    } else {
        proof {
            lemma_shrinks(n, radix);
        }
        numeral(n / radix, radix).push(digit((n % radix) as int))
    }
}

/// Dividing a number by the radix makes it smaller.
pub proof fn lemma_shrinks(n: nat, radix: nat)
    requires
        2 <= radix <= n,
    ensures
        n / radix < n,
        n / radix > 0,
        n % radix < radix,
        n == (n / radix) * radix + n % radix,
{
    assert(n / radix < n && n / radix > 0 && n % radix < radix && n == (n / radix) * radix + n
        % radix) by (nonlinear_arith)
        requires
            2 <= radix <= n,
    ;
}

/// The digit of value `d`.
fn digit_char(d: u32) -> (c: char)
    requires
        d < 16,
    ensures
        c == digit(d as int),
{
    if d < 10 {
        (48u8 + d as u8) as char
    } else {
        (97u8 + (d - 10) as u8) as char
    }
}

/// Appends a number written in the given radix.
pub fn push_numeral(out: &mut String, n: u32, radix: u32)
    requires
        2 <= radix <= 16,
    ensures
        final(out)@ == old(out)@ + numeral(n as nat, radix as nat),
    decreases n,
{
    if n < radix {
        out.push(digit_char(n));
        proof {
            assert(out@ =~= old(out)@ + numeral(n as nat, radix as nat));
        }
    } else {
        proof {
            lemma_shrinks(n as nat, radix as nat);
        }
        push_numeral(out, n / radix, radix);
        out.push(digit_char(n % radix));
        proof {
            assert(out@ =~= old(out)@ + numeral(n as nat, radix as nat));
        }
    }
}

// ---------------------------------------------------------------------------
// Reading
// ---------------------------------------------------------------------------
/// The value of a digit in the given radix, upper and lower case alike.
pub open spec fn digit_value(c: char, radix: nat) -> Option<nat> {
    let value = if '0' <= c <= '9' {
        c as int - '0' as int
    } else if 'a' <= c <= 'z' {
        c as int - 'a' as int + 10
    } else if 'A' <= c <= 'Z' {
        c as int - 'A' as int + 10
    } else {
        36
    };
    if value < radix {
        Some(value as nat)
    } else {
        None
    }
}

/// The value of digits; nothing, where one of them is no digit.
pub open spec fn digits_value(s: Seq<char>, radix: nat) -> Option<nat>
    decreases s.len(),
{
    if s.len() == 0 {
        Some(0)
    } else {
        match (digits_value(s.drop_last(), radix), digit_value(s.last(), radix)) {
            (Some(high), Some(low)) => Some(high * radix + low),
            _ => None,
        }
    }
}

/// The digits of a number as it may be written: with one plus sign in front, or without.
pub open spec fn unsigned_digits(s: Seq<char>) -> Seq<char> {
    if s.len() > 0 && s[0] == '+' {
        s.skip(1)
    } else {
        s
    }
}

/// The number that a text stands for: at least one digit, nothing else but a plus sign in
/// front, and no more than `max`.
pub open spec fn parsed(s: Seq<char>, radix: nat, max: nat) -> Option<nat> {
    let digits = unsigned_digits(s);
    if digits.len() == 0 {
        None
    } else {
        match digits_value(digits, radix) {
            Some(n) => if n <= max {
                Some(n)
            } else {
                None
            },
            None => None,
        }
    }
}

/// The value of a digit in the given radix.
fn value_of_digit(c: char, radix: u32) -> (r: Option<u32>)
    requires
        2 <= radix <= 36,
    ensures
        match r {
            Some(d) => digit_value(c, radix as nat) == Some(d as nat),
            None => digit_value(c, radix as nat) is None,
        },
{
    let value: u32 = if '0' <= c && c <= '9' {
        c as u32 - '0' as u32
    } else if 'a' <= c && c <= 'z' {
        c as u32 - 'a' as u32 + 10
    } else if 'A' <= c && c <= 'Z' {
        c as u32 - 'A' as u32 + 10
    } else {
        36
    };
    if value < radix {
        Some(value)
    } else {
        None
    }
}

/// Once more than a bound, digits stay more than it.
proof fn lemma_value_grows(s: Seq<char>, radix: nat, i: int, max: nat)
    requires
        0 <= i <= s.len(),
        radix >= 2,
        digits_value(s.take(i), radix) is None || digits_value(s.take(i), radix)->0 > max,
    ensures
        digits_value(s, radix) is None || digits_value(s, radix)->0 > max,
    decreases s.len() - i,
{
    if i == s.len() {
        assert(s.take(i) =~= s);
    } else {
        let next = s.take(i + 1);
        assert(next.drop_last() =~= s.take(i));
        if let Some(high) = digits_value(s.take(i), radix) {
            assert(high * radix >= high) by (nonlinear_arith)
                requires
                    radix >= 2,
                    high >= 0,
            ;
        }
        lemma_value_grows(s, radix, i + 1, max);
    }
}

/// The number that a text stands for.
pub fn parse_number(s: &[char], radix: u32, max: u32) -> (r: Option<u32>)
    requires
        2 <= radix <= 36,
    ensures
        match r {
            Some(n) => parsed(s@, radix as nat, max as nat) == Some(n as nat),
            None => parsed(s@, radix as nat, max as nat) is None,
        },
{
    let n: usize = s.len();
    let start: usize = if n > 0 && s[0] == '+' {
        1
    } else {
        0
    };
    let ghost digits = unsigned_digits(s@);
    proof {
        assert(digits =~= s@.skip(start as int));
        assert(digits.take(0) =~= Seq::<char>::empty());
        assert(digits.take(digits.len() as int) =~= digits);
    }
    if start == n {
        return None;
    }
    let mut value: u64 = 0;
    let mut i: usize = start;
    while i < n
        invariant
            n == s@.len(),
            start <= i <= n,
            start < n,
            2 <= radix <= 36,
            digits == s@.skip(start as int),
            digits == unsigned_digits(s@),
            digits_value(digits.take(i - start), radix as nat) == Some(value as nat),
            value <= max,
        decreases n - i,
    {
        let ghost k = i - start;
        proof {
            assert(digits.take(k + 1).drop_last() =~= digits.take(k));
            assert(digits.take(k + 1).last() == s@[i as int]);
        }
        match value_of_digit(s[i], radix) {
            None => {
                proof {
                    lemma_value_grows(digits, radix as nat, k + 1, max as nat);
                }
                return None;
            },
            Some(d) => {
                assert(value * radix <= 0xffff_ffff * 36) by (nonlinear_arith)
                    requires
                        value <= 0xffff_ffff,
                        radix <= 36,
                ;
                value = value * radix as u64 + d as u64;
                if value > max as u64 {
                    proof {
                        lemma_value_grows(digits, radix as nat, k + 1, max as nat);
                    }
                    return None;
                }
            },
        }
        i += 1;
    }
    proof {
        assert(digits.take(n - start) =~= digits);
    }
    Some(value as u32)
}

// ---------------------------------------------------------------------------
// Octets
// ---------------------------------------------------------------------------
/// 256 to the power of `n`.
pub open spec fn octet_range(n: nat) -> nat
    decreases n,
{
    if n == 0 {
        1
    } else {
        octet_range((n - 1) as nat) * 256
    }
}

/// Up to sixteen octets make a number of 128 bits.
pub proof fn lemma_octet_range(n: nat)
    requires
        n <= 16,
    ensures
        octet_range(n) <= 0x1_0000_0000_0000_0000_0000_0000_0000_0000,
    decreases 16 - n,
{
    if n < 16 {
        lemma_octet_range(n + 1);
    } else {
        reveal_with_fuel(octet_range, 17);
    }
}

// ---------------------------------------------------------------------------
// Laws
// ---------------------------------------------------------------------------
/// What a digit stands for, and what it is not.
pub proof fn lemma_digit_value(d: int, radix: nat)
    requires
        0 <= d < radix <= 16,
    ensures
        digit_value(digit(d), radix) == Some(d as nat),
        (digit(d) as u32) < 0x80,
        digit(d) != '+',
        digit(d) != '.',
        digit(d) != ':',
        digit(d) != '[',
{
}

/// What a numeral is made of, and what it stands for.
pub proof fn lemma_numeral(n: nat, radix: nat)
    requires
        2 <= radix <= 16,
    ensures
        numeral(n, radix).len() > 0,
        digits_value(numeral(n, radix), radix) == Some(n),
        forall|i: int|
            0 <= i < numeral(n, radix).len() ==> {
                let c = #[trigger] numeral(n, radix)[i];
                c != '+' && c != '.' && c != ':' && c != '['
            },
    decreases n,
{
    if n < radix {
        let s = seq![digit(n as int)];
        lemma_digit_value(n as int, radix);
        assert(s.drop_last() =~= Seq::<char>::empty());
        assert(0nat * radix == 0) by (nonlinear_arith);
        reveal_with_fuel(digits_value, 2);
    } else {
        lemma_shrinks(n, radix);
        lemma_numeral(n / radix, radix);
        lemma_digit_value((n % radix) as int, radix);
        assert(numeral(n, radix).drop_last() =~= numeral(n / radix, radix));
    }
}

/// Reading a number that was written gives it back.
pub proof fn law_parsed_numeral(n: nat, radix: nat, max: nat)
    requires
        2 <= radix <= 16,
        n <= max,
    ensures
        parsed(numeral(n, radix), radix, max) == Some(n),
{
    lemma_numeral(n, radix);
    assert(numeral(n, radix)[0] != '+');
}

/// Different numbers are written differently.
pub proof fn law_numeral_injective(a: nat, b: nat, radix: nat)
    requires
        2 <= radix <= 16,
        numeral(a, radix) == numeral(b, radix),
    ensures
        a == b,
{
    lemma_numeral(a, radix);
    lemma_numeral(b, radix);
}

/// A numeral has no leading zero, unless it is the one of zero.
pub proof fn law_numeral_is_shortest(n: nat, radix: nat)
    requires
        2 <= radix <= 16,
    ensures
        numeral(n, radix).len() > 0,
        numeral(n, radix)[0] != '+',
        numeral(n, radix).len() > 1 ==> numeral(n, radix)[0] != '0',
        n > 0 ==> numeral(n, radix)[0] != '0',
    decreases n,
{
    lemma_numeral(n, radix);
    if n >= radix {
        lemma_shrinks(n, radix);
        law_numeral_is_shortest(n / radix, radix);
    }
}

/// Numbers below ten are written as the digits that they are, and then up to fifteen as the
/// letters from `a` on. A larger number is written as its quotient by the radix and then its
/// remainder.
pub proof fn law_numeral_written(n: nat, d: nat, radix: nat)
    requires
        2 <= radix <= 16,
        d < radix,
    ensures
        d < 10 ==> numeral(d, radix) == seq![(48 + d) as char],
        d >= 10 ==> numeral(d, radix) == seq![(97 + (d - 10)) as char],
        n > 0 ==> numeral(n * radix + d, radix) == numeral(n, radix) + numeral(d, radix),
{
    if n > 0 {
        let m = n * radix + d;
        assert(m >= radix && m / radix == n && m % radix == d) by (nonlinear_arith)
            requires
                m == n * radix + d,
                n > 0,
                d < radix,
                2 <= radix,
        ;
        assert(numeral(m, radix) =~= numeral(n, radix) + numeral(d, radix));
    }
}

/// The value of one digit, as it is written.
pub open spec fn one_digit(c: char) -> Option<nat> {
    if 48 <= c as int <= 57 {
        Some((c as int - 48) as nat)
    } else if 97 <= c as int <= 122 {
        Some((c as int - 87) as nat)
    } else if 65 <= c as int <= 90 {
        Some((c as int - 55) as nat)
    } else {
        None
    }
}

/// Reading goes digit by digit: one more digit makes the number so many times as large as the
/// radix says, and adds its value. A number that is too large, and anything but a digit, is
/// refused.
pub proof fn law_parsed_digit_by_digit(s: Seq<char>, c: char, radix: nat, max: nat)
    requires
        2 <= radix <= 36,
        s.len() > 0,
        s != seq!['+'],
    ensures
        parsed(s.push(c), radix, max) == match (parsed(s, radix, max), one_digit(c)) {
            (Some(n), Some(d)) => if d < radix && n * radix + d <= max {
                Some(n * radix + d)
            } else {
                None
            },
            _ => None,
        },
{
    let digits = unsigned_digits(s);
    let more = unsigned_digits(s.push(c));
    if s[0] == '+' && s.len() == 1 {
        assert(s =~= seq!['+']);
    }
    assert(more =~= digits.push(c));
    assert(more.drop_last() =~= digits);
    if let Some(n) = digits_value(digits, radix) {
        assert(n * radix >= n) by (nonlinear_arith)
            requires
                radix >= 2,
                n >= 0,
        ;
    }
}

/// What a text of one character stands for, behind a plus sign or not; and nothing stands for no
/// number.
pub proof fn law_parsed_one_digit(c: char, radix: nat, max: nat)
    requires
        2 <= radix <= 36,
        c != '+',
    ensures
        ({
            let value = match one_digit(c) {
                Some(d) => if d < radix && d <= max {
                    Some(d)
                } else {
                    None
                },
                None => None,
            };
            &&& parsed(seq![c], radix, max) == value
            &&& parsed(seq!['+', c], radix, max) == value
        }),
        parsed(Seq::empty(), radix, max) is None,
        parsed(seq!['+'], radix, max) is None,
{
    let one = seq![c];
    assert(one.drop_last() =~= Seq::<char>::empty());
    assert(seq!['+', c].skip(1) =~= one);
    assert(seq!['+'].skip(1) =~= Seq::<char>::empty());
    reveal_with_fuel(digits_value, 2);
    assert(0nat * radix == 0) by (nonlinear_arith);
}

} // verus!
