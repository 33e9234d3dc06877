//! The decimal and hexadecimal notations of numbers.
use crate::text::chars_of;
use vstd::prelude::*;

verus! {

/// The character of a digit below sixteen.
pub open spec fn digit_char(d: int) -> char {
    if d < 10 {
        (48 + d) as char
    } else {
        (87 + d) as char
    }
}

/// The digits of a number, the most significant one first, without leading zeros.
pub open spec fn digits(n: nat, radix: nat) -> Seq<char>
    decreases n,
{
    if n < radix || radix < 2 {
        seq![digit_char(n as int)]
    } else {
        proof {
            assert(n / radix < n) by (nonlinear_arith)
                requires
                    n >= radix,
                    radix >= 2,
            ;
        }
        digits(n / radix, radix).push(digit_char((n % radix) as int))
    }
}

/// The decimal notation.
pub open spec fn dec(n: nat) -> Seq<char> {
    digits(n, 10)
}

/// The hexadecimal notation.
pub open spec fn hex(n: nat) -> Seq<char> {
    digits(n, 16)
}

fn digit_of(d: u64) -> (r: char)
    requires
        d < 16,
    ensures
        r == digit_char(d as int),
{
    if d < 10 {
        ((48 + d) as u8) as char
    } else {
        ((87 + d) as u8) as char
    }
}

fn notation(n: u64, radix: u64) -> (r: String)
    requires
        2 <= radix <= 16,
    ensures
        r@ == digits(n as nat, radix as nat),
    decreases n,
{
    if n < radix {
        let mut r = String::new();
        r.push(digit_of(n));
        assert(r@ =~= seq![digit_char(n as int)]);
        r
    } else {
        assert(n / radix < n) by (nonlinear_arith)
            requires
                n >= radix,
                radix >= 2,
        ;
        let mut r = notation(n / radix, radix);
        r.push(digit_of(n % radix));
        r
    }
}

/// The decimal notation of a number.
pub fn decimal(n: u64) -> (r: String)
    ensures
        r@ == dec(n as nat),
{
    notation(n, 10)
}

/// The hexadecimal notation of a number.
pub fn hexadecimal(n: u64) -> (r: String)
    ensures
        r@ == hex(n as nat),
{
    notation(n, 16)
}

/// The two hexadecimal digits of a byte.
pub open spec fn hex2(b: u8) -> Seq<char> {
    seq![digit_char(b as int / 16), digit_char(b as int % 16)]
}

/// Appends the two hexadecimal digits of a byte.
pub fn push_hex2(s: &mut String, b: u8)
    ensures
        final(s)@ == old(s)@ + hex2(b),
{
    let ghost before = s@;
    s.push(digit_of((b / 16) as u64));
    s.push(digit_of((b % 16) as u64));
    assert(s@ =~= before + hex2(b));
}

/// The value of a digit in a radix of at most sixteen.
pub open spec fn digit_value(c: char, radix: int) -> Option<int> {
    let n = c as int;
    let d = if 48 <= n <= 57 {
        n - 48
    } else if 65 <= n <= 70 {
        n - 55
    } else if 97 <= n <= 102 {
        n - 87
    } else {
        radix
    };
    if d < radix {
        Some(d)
    } else {
        None
    }
}

fn value_of_digit(c: char, radix: u64) -> (r: Option<u64>)
    requires
        2 <= radix <= 16,
    ensures
        match r {
            Some(d) => digit_value(c, radix as int) == Some(d as int),
            None => digit_value(c, radix as int) is None,
        },
{
    let n: u64 = c as u64;
    let d: u64 = if 48 <= n && n <= 57 {
        n - 48
    } else if 65 <= n && n <= 70 {
        n - 55
    } else if 97 <= n && n <= 102 {
        n - 87
    } else {
        radix
    };
    if d < radix {
        Some(d)
    } else {
        None
    }
}

/// The number that a run of digits names; none where a character is no digit.
pub open spec fn digits_value(s: Seq<char>, radix: int) -> Option<int>
    decreases s.len(),
{
    if s.len() == 0 {
        Some(0)
    } else {
        match (digits_value(s.drop_last(), radix), digit_value(s.last(), radix)) {
            (Some(v), Some(d)) => Some(v * radix + d),
            _ => None,
        }
    }
}

/// The number that a text names: digits, with one plus sign allowed before them,
/// and a value of at most `max`.
pub open spec fn parsed(s: Seq<char>, radix: int, max: int) -> Option<int> {
    let t = if s.len() > 0 && s[0] == '+' {
        s.drop_first()
    } else {
        s
    };
    match digits_value(t, radix) {
        Some(v) => if t.len() > 0 && v <= max {
            Some(v)
        } else {
            None
        },
        None => None,
    }
}

proof fn lemma_prefix_value(s: Seq<char>, radix: int, i: int)
    requires
        2 <= radix,
        0 <= i <= s.len(),
        digits_value(s, radix) is Some,
    ensures
        digits_value(s.take(i), radix) is Some,
        0 <= digits_value(s.take(i), radix)->0 <= digits_value(s, radix)->0,
    decreases s.len(),
{
    if i == s.len() {
        assert(s.take(i) =~= s);
        if s.len() > 0 {
            lemma_prefix_value(s.drop_last(), radix, s.len() - 1);
            assert(s.drop_last().take(s.len() - 1) =~= s.drop_last());
            let v = digits_value(s.drop_last(), radix)->0;
            assert(v * radix >= 0) by (nonlinear_arith)
                requires
                    v >= 0,
                    radix >= 2,
            ;
        }
    } else {
        lemma_prefix_value(s.drop_last(), radix, i);
        assert(s.drop_last().take(i) =~= s.take(i));
        let v = digits_value(s.drop_last(), radix)->0;
        assert(v * radix >= v) by (nonlinear_arith)
            requires
                v >= 0,
                radix >= 2,
        ;
    }
}

/// Reads a number.
pub fn parse_unsigned(s: &str, radix: u64, max: u64) -> (r: Option<u64>)
    requires
        2 <= radix <= 16,
    ensures
        match r {
            Some(v) => parsed(s@, radix as int, max as int) == Some(v as int),
            None => parsed(s@, radix as int, max as int) is None,
        },
{
    let cs = chars_of(s);
    let from: usize = if cs.len() > 0 && cs[0] == '+' {
        1
    } else {
        0
    };
    let ghost t = cs@.skip(from as int);
    assert(t =~= if s@.len() > 0 && s@[0] == '+' {
        s@.drop_first()
    } else {
        s@
    });
    if from == cs.len() {
        return None;
    }
    let mut v: u64 = 0;
    let mut i: usize = from;
    assert(t.take(0) =~= Seq::<char>::empty());
    while i < cs.len()
        invariant
            from <= i <= cs@.len(),
            from < cs@.len(),
            t == cs@.skip(from as int),
            2 <= radix <= 16,
            v <= max,
            digits_value(t.take(i - from), radix as int) == Some(v as int),
            t == if s@.len() > 0 && s@[0] == '+' {
                s@.drop_first()
            } else {
                s@
            },
        decreases cs@.len() - i,
    {
        let ghost k = i - from;
        assert(t.take(k + 1).drop_last() =~= t.take(k));
        assert(t.take(k + 1).last() == cs@[i as int]);
        match value_of_digit(cs[i], radix) {
            Some(d) => {
                assert(v * radix <= u64::MAX * 16) by (nonlinear_arith)
                    requires
                        v <= u64::MAX,
                        radix <= 16,
                ;
                let wide: u128 = (v as u128) * (radix as u128) + d as u128;
                if wide > max as u128 {
                    proof {
                        if digits_value(t, radix as int) is Some {
                            lemma_prefix_value(t, radix as int, k + 1);
                        }
                    }
                    return None;
                }
                v = wide as u64;
            },
            None => {
                proof {
                    if digits_value(t, radix as int) is Some {
                        lemma_prefix_value(t, radix as int, k + 1);
                    }
                }
                return None;
            },
        }
        i += 1;
    }
    assert(t.take(i - from) =~= t);
    Some(v)
}

/// Reading the notation of a number gives the number back.
pub proof fn law_parse_reads_notation(n: nat, radix: nat, max: int)
    requires
        2 <= radix <= 16,
        n <= max,
    ensures
        parsed(digits(n, radix), radix as int, max) == Some(n as int),
{
    lemma_digits_value(n, radix);
    lemma_first_digit(n, radix);
}

proof fn lemma_digits_value(n: nat, radix: nat)
    requires
        2 <= radix <= 16,
    ensures
        digits_value(digits(n, radix), radix as int) == Some(n as int),
        digits(n, radix).len() > 0,
    decreases n,
{
    reveal_with_fuel(digits_value, 2);
    if n < radix {
        let s = seq![digit_char(n as int)];
        assert(s.drop_last() =~= Seq::<char>::empty());
        assert(digit_value(s.last(), radix as int) == Some(n as int));
        assert(digits(n, radix) == s);
        assert(0int * (radix as int) == 0) by (nonlinear_arith);
    } else {
        assert(n / radix < n) by (nonlinear_arith)
            requires
                n >= radix,
                radix >= 2,
        ;
        lemma_digits_value(n / radix, radix);
        let s = digits(n, radix);
        assert(s.drop_last() =~= digits(n / radix, radix));
        assert((n / radix) * radix + n % radix == n) by (nonlinear_arith)
            requires
                radix >= 2,
        ;
        assert(0 <= n % radix < radix) by (nonlinear_arith)
            requires
                radix >= 2,
        ;
        assert(s.last() == digit_char((n % radix) as int));
        assert(digit_value(s.last(), radix as int) == Some((n % radix) as int));
    }
}

proof fn lemma_first_digit(n: nat, radix: nat)
    requires
        2 <= radix <= 16,
    ensures
        digits(n, radix).len() > 0,
        digits(n, radix)[0] != '+',
    decreases n,
{
    if n >= radix {
        assert(n / radix < n) by (nonlinear_arith)
            requires
                n >= radix,
                radix >= 2,
        ;
        lemma_first_digit(n / radix, radix);
    }
}

proof fn lemma_digits_nonnegative(s: Seq<char>, radix: int)
    requires
        2 <= radix,
    ensures
        digits_value(s, radix) matches Some(v) ==> 0 <= v,
    decreases s.len(),
{
    if s.len() > 0 {
        lemma_digits_nonnegative(s.drop_last(), radix);
        match digits_value(s.drop_last(), radix) {
            Some(v) => {
                assert(0 <= v * radix) by (nonlinear_arith)
                    requires
                        0 <= v,
                        2 <= radix,
                ;
            },
            None => {},
        }
    }
}

/// A number that was read is not negative and within its limit.
pub proof fn lemma_parsed_in_range(s: Seq<char>, radix: int, max: int)
    requires
        2 <= radix,
    ensures
        parsed(s, radix, max) matches Some(v) ==> 0 <= v <= max,
{
    lemma_digits_nonnegative(s, radix);
    if s.len() > 0 {
        lemma_digits_nonnegative(s.drop_first(), radix);
    }
}

/// A notation holds digits alone, and only that of zero starts with a zero.
pub proof fn lemma_notation(n: nat, radix: nat)
    requires
        2 <= radix <= 16,
    ensures
        digits(n, radix).len() > 0,
        forall|i: int|
            0 <= i < digits(n, radix).len() ==> digit_value(
                #[trigger] digits(n, radix)[i],
                radix as int,
            ) is Some,
        n > 0 ==> digits(n, radix)[0] != '0',
    decreases n,
{
    if n < radix {
        assert(digit_value(digit_char(n as int), radix as int) == Some(n as int));
    } else {
        assert(0 < n / radix < n) by (nonlinear_arith)
            requires
                n >= radix,
                radix >= 2,
        ;
        assert(0 <= n % radix < radix) by (nonlinear_arith)
            requires
                radix >= 2,
        ;
        lemma_notation(n / radix, radix);
        let front = digits(n / radix, radix);
        let d = (n % radix) as int;
        assert(digit_value(digit_char(d), radix as int) == Some(d));
        assert forall|i: int| 0 <= i < digits(n, radix).len() implies digit_value(
            #[trigger] digits(n, radix)[i],
            radix as int,
        ) is Some by {
            if i < front.len() {
                assert(digits(n, radix)[i] == front[i]);
            }
        }
    }
}

/// A byte takes at most three decimal digits.
pub proof fn lemma_dec_len(n: nat)
    requires
        n < 256,
    ensures
        dec(n).len() <= 3,
{
    reveal_with_fuel(digits, 4);
}

/// A number of sixteen bits takes at most four hexadecimal digits.
pub proof fn lemma_hex_len(n: nat)
    requires
        n < 65536,
    ensures
        hex(n).len() <= 4,
{
    reveal_with_fuel(digits, 5);
}

} // verus!
