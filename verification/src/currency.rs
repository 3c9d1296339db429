//! Currency display: signed amounts rendered with thousands separators and a
//! fixed two-decimal suffix, e.g. `-₱ 1,234,567.00`.

use vstd::prelude::*;

verus! {

/// The decimal digit character for a value in 0..=9.
pub open spec fn dec_digit(d: int) -> char {
    if d == 0 {
        '0'
    } else if d == 1 {
        '1'
    } else if d == 2 {
        '2'
    } else if d == 3 {
        '3'
    } else if d == 4 {
        '4'
    } else if d == 5 {
        '5'
    } else if d == 6 {
        '6'
    } else if d == 7 {
        '7'
    } else if d == 8 {
        '8'
    } else {
        '9'
    }
}

/// The decimal digit string of a non-negative integer, most significant
/// digit first, with no leading zeros (a single `'0'` for zero).
pub open spec fn dec_str(n: int) -> Seq<char>
    decreases n,
{
    if n < 10 {
        seq![dec_digit(n)]
    } else {
        dec_str(n / 10).push(dec_digit(n % 10))
    }
}

/// Appends one decimal digit character to `s`.
pub(crate) fn push_digit(s: &mut String, d: u64)
    requires
        d < 10,
    ensures
        final(s)@ == old(s)@.push(dec_digit(d as int)),
{
    let lit: &str = if d == 0 {
        "0"
    } else if d == 1 {
        "1"
    } else if d == 2 {
        "2"
    } else if d == 3 {
        "3"
    } else if d == 4 {
        "4"
    } else if d == 5 {
        "5"
    } else if d == 6 {
        "6"
    } else if d == 7 {
        "7"
    } else if d == 8 {
        "8"
    } else {
        "9"
    };
    proof {
        reveal_strlit("0");
        reveal_strlit("1");
        reveal_strlit("2");
        reveal_strlit("3");
        reveal_strlit("4");
        reveal_strlit("5");
        reveal_strlit("6");
        reveal_strlit("7");
        reveal_strlit("8");
        reveal_strlit("9");
    }
    s.append(lit);
    proof {
        assert(final(s)@ =~= old(s)@.push(dec_digit(d as int)));
    }
}

/// Appends the decimal digit string of `n` to `s`.
pub(crate) fn append_dec(s: &mut String, n: u64)
    ensures
        final(s)@ == old(s)@ + dec_str(n as int),
    decreases n,
{
    if n < 10 {
        push_digit(s, n);
        proof {
            assert(final(s)@ =~= old(s)@ + dec_str(n as int));
        }
    } else {
        append_dec(s, n / 10);
        push_digit(s, n % 10);
        proof {
            assert(final(s)@ =~= old(s)@ + dec_str(n as int));
        }
    }
}

/// Digit string with a comma inserted every three digits, counting from the
/// least significant end.
pub open spec fn grouped(digits: Seq<char>) -> Seq<char>
    decreases digits.len(),
{
    if digits.len() <= 3 {
        digits
    } else {
        grouped(digits.take(digits.len() - 3)) + seq![','] + digits.skip(digits.len() - 3)
    }
}

/// The grouped magnitude, prefixed with `'-'` for negative values.
pub open spec fn spec_format_with_commas(v: int) -> Seq<char> {
    if v < 0 {
        seq!['-'] + grouped(dec_str(-v))
    } else {
        grouped(dec_str(v))
    }
}

/// Sign, then the symbol, a space, the grouped magnitude, and `.00`.
pub open spec fn spec_format_currency(amount: int, symbol: Seq<char>) -> Seq<char> {
    let sign: Seq<char> = if amount < 0 {
        seq!['-']
    } else {
        Seq::empty()
    };
    let mag: int = if amount < 0 {
        -amount
    } else {
        amount
    };
    sign + symbol + seq![' '] + grouped(dec_str(mag)) + seq!['.', '0', '0']
}

proof fn lemma_dec_str_len(n: int)
    requires
        n >= 0,
    ensures
        dec_str(n).len() >= 1,
        dec_str(n).len() <= 1 <==> n < 10,
        dec_str(n).len() <= 2 <==> n < 100,
        dec_str(n).len() <= 3 <==> n < 1000,
    decreases n,
{
    if n >= 10 {
        lemma_dec_str_len(n / 10);
        assert(n / 10 < 10 <==> n < 100) by (nonlinear_arith)
            requires
                n >= 0,
        ;
        assert(n / 10 < 100 <==> n < 1000) by (nonlinear_arith)
            requires
                n >= 0,
        ;
    }
}

proof fn lemma_dec_str_split(n: int)
    requires
        n >= 1000,
    ensures
        dec_str(n) == dec_str(n / 1000) + seq![
            dec_digit((n / 100) % 10),
            dec_digit((n / 10) % 10),
            dec_digit(n % 10),
        ],
{
    assert(n / 10 / 10 == n / 100 && n / 100 / 10 == n / 1000) by (nonlinear_arith)
        requires
            n >= 1000,
    ;
    assert(n / 10 >= 100 && n / 100 >= 10) by (nonlinear_arith)
        requires
            n >= 1000,
    ;
    assert(dec_str(n) == dec_str(n / 10).push(dec_digit(n % 10)));
    assert(dec_str(n / 10) == dec_str(n / 100).push(dec_digit((n / 10) % 10)));
    assert(dec_str(n / 100) == dec_str(n / 1000).push(dec_digit((n / 100) % 10)));
    assert(dec_str(n) =~= dec_str(n / 1000) + seq![
        dec_digit((n / 100) % 10),
        dec_digit((n / 10) % 10),
        dec_digit(n % 10),
    ]);
}

proof fn lemma_grouped_step(n: int)
    requires
        n >= 1000,
    ensures
        grouped(dec_str(n)) == grouped(dec_str(n / 1000)) + seq![','] + seq![
            dec_digit((n / 100) % 10),
            dec_digit((n / 10) % 10),
            dec_digit(n % 10),
        ],
{
    lemma_dec_str_split(n);
    lemma_dec_str_len(n / 1000);
    let d = dec_str(n);
    let tail = seq![dec_digit((n / 100) % 10), dec_digit((n / 10) % 10), dec_digit(n % 10)];
    assert(d.len() == dec_str(n / 1000).len() + 3);
    assert(d.take(d.len() - 3) =~= dec_str(n / 1000));
    assert(d.skip(d.len() - 3) =~= tail);
}

/// Appends the grouped digit string of `n` to `s`.
fn append_grouped(s: &mut String, n: u64)
    ensures
        final(s)@ == old(s)@ + grouped(dec_str(n as int)),
    decreases n,
{
    if n < 1000 {
        proof {
            lemma_dec_str_len(n as int);
        }
        append_dec(s, n);
    } else {
        append_grouped(s, n / 1000);
        s.append(",");
        push_digit(s, (n / 100) % 10);
        push_digit(s, (n / 10) % 10);
        push_digit(s, n % 10);
        proof {
            reveal_strlit(",");
            lemma_grouped_step(n as int);
            assert(final(s)@ =~= old(s)@ + grouped(dec_str(n as int)));
        }
    }
}

/// The magnitude of `v` as an unsigned value (total, also at `i64::MIN`).
pub(crate) fn magnitude(v: i64) -> (m: u64)
    ensures
        m as int == if v < 0 {
            -(v as int)
        } else {
            v as int
        },
{
    if v < 0 {
        (-(v as i128)) as u64
    } else {
        v as u64
    }
}

/// Renders `value` in decimal with thousands separators, `'-'` first when
/// negative: `format_with_commas(-1234567)` is `-1,234,567`.
pub fn format_with_commas(value: i64) -> (r: String)
    ensures
        r@ == spec_format_with_commas(value as int),
{
    let mut s = String::new();
    if value < 0 {
        s.append("-");
        proof {
            reveal_strlit("-");
        }
    }
    let ghost prefix = s@;
    proof {
        assert(prefix =~= spec_format_with_commas(value as int).take(prefix.len() as int));
    }
    append_grouped(&mut s, magnitude(value));
    proof {
        assert(s@ =~= spec_format_with_commas(value as int));
    }
    s
}

/// Renders an amount for display: sign prefix when negative, the currency
/// symbol, a space, the grouped magnitude, and a fixed `.00` suffix.
pub fn format_currency(amount: i64, symbol: &str) -> (r: String)
    ensures
        r@ == spec_format_currency(amount as int, symbol@),
{
    let mut s = String::new();
    if amount < 0 {
        s.append("-");
    }
    s.append(symbol);
    s.append(" ");
    append_grouped(&mut s, magnitude(amount));
    s.append(".00");
    proof {
        reveal_strlit("-");
        reveal_strlit(" ");
        reveal_strlit(".00");
        assert(s@ =~= spec_format_currency(amount as int, symbol@));
    }
    s
}

} // verus!
