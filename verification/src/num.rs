//! Unsigned integers read from and written as text, as `str::parse`,
//! `from_str_radix` and `format!("{}", n)` do it.

use vstd::prelude::*;

verus! {

/// The value of `c` as a digit in base `radix` (at most 36), if it is one.
pub open spec fn digit_value(c: char, radix: nat) -> Option<nat> {
    if '0' <= c && c <= '9' && (c as nat) - ('0' as nat) < radix {
        Some((c as nat - '0' as nat) as nat)
    } else if 'a' <= c && c <= 'z' && (c as nat) - ('a' as nat) + 10 < radix {
        Some((c as nat - 'a' as nat + 10) as nat)
    } else if 'A' <= c && c <= 'Z' && (c as nat) - ('A' as nat) + 10 < radix {
        Some((c as nat - 'A' as nat + 10) as nat)
    } else {
        None
    }
}

/// Whether every character of `s` is a digit in base `radix`.
pub open spec fn all_digits(s: Seq<char>, radix: nat) -> bool {
    forall|i: int| 0 <= i < s.len() ==> (#[trigger] digit_value(s[i], radix)) is Some
}

/// The number that the digits `s` write in base `radix`.
pub open spec fn digits_value(s: Seq<char>, radix: nat) -> nat
    decreases s.len(),
{
    if s.len() == 0 {
        0
    } else {
        digits_value(s.drop_last(), radix) * radix + match digit_value(s.last(), radix) {
            Some(d) => d,
            None => 0,
        }
    }
}

/// What parsing `s` as an unsigned integer in base `radix` gives, when the
/// largest value the type holds is `max`: an optional `+`, then at least one
/// digit, and a value no larger than `max`.
pub open spec fn parse_uint(s: Seq<char>, radix: nat, max: nat) -> Option<nat> {
    let body = if s.len() > 0 && s[0] == '+' {
        s.drop_first()
    } else {
        s
    };
    if body.len() == 0 || !all_digits(body, radix) || digits_value(body, radix) > max {
        None
    } else {
        Some(digits_value(body, radix))
    }
}

/// The decimal digits of `n`, without sign or leading zeros.
pub open spec fn decimal(n: nat) -> Seq<char>
    decreases n,
{
    if n < 10 {
        seq![(n + '0' as nat) as char]
    } else {
        decimal(n / 10).push(((n % 10) + '0' as nat) as char)
    }
}

pub proof fn lemma_decimal_digits(n: nat)
    ensures
        decimal(n).len() >= 1,
        all_digits(decimal(n), 10),
        digits_value(decimal(n), 10) == n,
        decimal(n)[0] != '+',
    decreases n,
{
    if n >= 10 {
        lemma_decimal_digits(n / 10);
        let d = decimal(n);
        assert(d.drop_last() =~= decimal(n / 10));
        assert forall|i: int| 0 <= i < d.len() implies (#[trigger] digit_value(d[i], 10)) is Some by {
            if i < d.len() - 1 {
                assert(d[i] == decimal(n / 10)[i]);
            }
        }
        assert(d[0] == decimal(n / 10)[0]);
        let c = d.last();
        assert(c == ((n % 10) + '0' as nat) as char);
        assert(c as nat == n % 10 + 48);
        assert(digit_value(c, 10) == Some((n % 10) as nat));
        assert(digits_value(d, 10) == digits_value(decimal(n / 10), 10) * 10 + n % 10);
        assert(n == (n / 10) * 10 + n % 10);
    } else {
        let c = decimal(n)[0];
        assert(c as nat == n + 48);
        assert(decimal(n).drop_last() =~= Seq::<char>::empty());
        assert(decimal(n).last() == c);
        assert(digit_value(c, 10) == Some(n));
        assert(digits_value(decimal(n).drop_last(), 10) == 0);
    }
}

/// Writing a number in decimal and reading it back gives the number, when it
/// fits the type read into.
pub proof fn lemma_decimal_round_trip(n: nat, max: nat)
    requires
        n <= max,
    ensures
        parse_uint(decimal(n), 10, max) == Some(n),
{
    lemma_decimal_digits(n);
}

proof fn lemma_digits_value_prefix(s: Seq<char>, radix: nat, i: int, j: int)
    requires
        0 <= i <= j <= s.len(),
        radix >= 1,
    ensures
        digits_value(s.take(i), radix) <= digits_value(s.take(j), radix),
    decreases j - i,
{
    if i < j {
        lemma_digits_value_prefix(s, radix, i, j - 1);
        assert(s.take(j).drop_last() =~= s.take(j - 1));
        let v = digits_value(s.take(j - 1), radix);
        assert(v * radix >= v) by (nonlinear_arith)
            requires
                radix >= 1,
        ;
    }
}

/// Parses the characters `v[from..to]` as an unsigned integer in base
/// `radix`, no larger than `max`.
pub fn parse_radix(v: &Vec<char>, from: usize, to: usize, radix: u32, max: usize) -> (res:
    Option<usize>)
    requires
        from <= to <= v@.len(),
        2 <= radix <= 36,
    ensures
        match parse_uint(v@.subrange(from as int, to as int), radix as nat, max as nat) {
            Some(n) => res == Some(n as usize),
            None => res is None,
        },
{
    let ghost s = v@.subrange(from as int, to as int);
    let mut start = from;
    if from < to && v[from] == '+' {
        start = from + 1;
    }
    let ghost body = v@.subrange(start as int, to as int);
    assert(body =~= (if s.len() > 0 && s[0] == '+' {
        s.drop_first()
    } else {
        s
    }));
    if start == to {
        return None;
    }
    let mut acc: usize = 0;
    let mut i = start;
    while i < to
        invariant
            from <= start <= i <= to <= v@.len(),
            2 <= radix <= 36,
            body == v@.subrange(start as int, to as int),
            s == v@.subrange(from as int, to as int),
            body == (if s.len() > 0 && s[0] == '+' {
                s.drop_first()
            } else {
                s
            }),
            acc == digits_value(body.take(i - start), radix as nat),
            acc <= max,
            all_digits(body.take(i - start), radix as nat),
        decreases to - i,
    {
        let c = v[i];
        let k = i - start;
        assert(body[k as int] == c);
        let d: u32 = if '0' <= c && c <= '9' {
            (c as u32) - ('0' as u32)
        } else if 'a' <= c && c <= 'z' {
            (c as u32) - ('a' as u32) + 10
        } else if 'A' <= c && c <= 'Z' {
            (c as u32) - ('A' as u32) + 10
        } else {
            radix
        };
        if d >= radix {
            assert(digit_value(body[k as int], radix as nat) is None);
            assert(!all_digits(body, radix as nat));
            assert(parse_uint(s, radix as nat, max as nat) is None);
            return None;
        }
        assert(digit_value(c, radix as nat) == Some(d as nat));
        assert(body.take(k + 1).drop_last() =~= body.take(k as int));
        let dd = d as usize;
        let r = radix as usize;
        if dd > max || acc > (max - dd) / r {
            proof {
                let a = acc as int;
                if dd <= max {
                    assert(a * r + dd > max) by (nonlinear_arith)
                        requires
                            a > (max - dd) / (r as int),
                            r >= 2,
                            dd <= max,
                    {
                    }
                } else {
                    assert(a * r >= 0) by (nonlinear_arith)
                        requires
                            a >= 0,
                            r >= 2,
                    ;
                }
                lemma_digits_value_prefix(body, radix as nat, k + 1, body.len() as int);
                assert(body.take(body.len() as int) =~= body);
            }
            return None;
        }
        proof {
            let a = acc as int;
            assert(a * r + dd <= max) by (nonlinear_arith)
                requires
                    a <= (max - dd) / (r as int),
                    r >= 2,
                    dd <= max,
            {
            }
        }
        acc = acc * r + dd;
        assert forall|j: int| 0 <= j < k + 1 implies (#[trigger] digit_value(
            body.take(k + 1)[j],
            radix as nat,
        )) is Some by {
            if j < k {
                assert(body.take(k + 1)[j] == body.take(k as int)[j]);
            }
        }
        i += 1;
    }
    assert(body.take(body.len() as int) =~= body);
    Some(acc)
}

/// Parses `s` as a decimal `u8`, as `s.parse::<u8>()` does.
pub fn parse_u8(s: &String) -> (res: Option<u8>)
    ensures
        match parse_uint(s@, 10, 255) {
            Some(n) => res == Some(n as u8),
            None => res is None,
        },
{
    let cs = crate::text::chars_of(s.as_str());
    assert(cs@.subrange(0, cs@.len() as int) =~= cs@);
    match parse_radix(&cs, 0, cs.len(), 10, 255) {
        Some(n) => Some(n as u8),
        None => None,
    }
}

/// Parses `s` as a decimal `usize`, as `s.parse::<usize>()` does.
pub fn parse_usize(s: &String) -> (res: Option<usize>)
    ensures
        match parse_uint(s@, 10, usize::MAX as nat) {
            Some(n) => res == Some(n as usize),
            None => res is None,
        },
{
    let cs = crate::text::chars_of(s.as_str());
    assert(cs@.subrange(0, cs@.len() as int) =~= cs@);
    parse_radix(&cs, 0, cs.len(), 10, usize::MAX)
}

/// Appends the decimal digits of `n` to `out`.
pub fn push_decimal(n: usize, out: &mut Vec<char>)
    ensures
        final(out)@ == old(out)@ + decimal(n as nat),
    decreases n,
{
    if n >= 10 {
        push_decimal(n / 10, out);
    }
    let d = (n % 10) as u8;
    let c = (48u8 + d) as char;
    out.push(c);
    assert(final(out)@ =~= old(out)@ + decimal(n as nat));
}

} // verus!
