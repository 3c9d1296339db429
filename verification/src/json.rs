//! JSON text framing for the persisted entities: string and integer tokens
//! with exact encoders, matching parsers, and the round-trip lemmas the
//! store's contracts rest on. Strings escape the quote, the backslash, and
//! control characters (as `\u00XX`); integers are plain signed decimals.

use vstd::prelude::*;
use crate::currency;
use crate::currency::dec_str;
use crate::text;

verus! {

/// Lower-case hexadecimal digit character for a value in 0..=15.
pub open spec fn hex_digit(d: int) -> char {
    ((if d < 10 {
        48 + d
    } else {
        87 + d
    }) as u8) as char
}

/// Lower-case hexadecimal digit character.
pub open spec fn is_hex(c: char) -> bool {
    (48 <= c as int && c as int <= 57) || (97 <= c as int && c as int <= 102)
}

/// Value of a lower-case hexadecimal digit.
pub open spec fn hex_val(c: char) -> int {
    if c as int <= 57 {
        c as int - 48
    } else {
        c as int - 87
    }
}

/// The escape of one character inside a JSON string.
pub open spec fn esc_char(c: char) -> Seq<char> {
    if c == '"' {
        seq!['\\', '"']
    } else if c == '\\' {
        seq!['\\', '\\']
    } else if 0 <= c as int && (c as int) < 32 {
        seq!['\\', 'u', '0', '0', hex_digit((c as int) / 16), hex_digit((c as int) % 16)]
    } else {
        seq![c]
    }
}

/// The escaped body of a JSON string.
pub open spec fn esc_str(s: Seq<char>) -> Seq<char>
    decreases s.len(),
{
    if s.len() == 0 {
        Seq::empty()
    } else {
        esc_char(s[0]) + esc_str(s.drop_first())
    }
}

/// A complete JSON string token.
pub open spec fn enc_str_tok(s: Seq<char>) -> Seq<char> {
    seq!['"'] + esc_str(s) + seq!['"']
}

/// A complete JSON integer token.
pub open spec fn enc_int_tok(n: int) -> Seq<char> {
    if n < 0 {
        seq!['-'] + dec_str(-n)
    } else {
        dec_str(n)
    }
}

proof fn lemma_esc_str_push(a: Seq<char>, x: char)
    ensures
        esc_str(a.push(x)) == esc_str(a) + esc_char(x),
    decreases a.len(),
{
    if a.len() == 0 {
        assert(a.push(x)[0] == x);
        assert(a.push(x).drop_first() =~= Seq::<char>::empty());
        assert(esc_str(a.push(x)) == esc_char(x) + esc_str(a.push(x).drop_first()));
        assert(esc_str(a.push(x)) =~= esc_str(a) + esc_char(x));
    } else {
        assert(a.push(x)[0] == a[0]);
        assert(a.push(x).drop_first() =~= a.drop_first().push(x));
        lemma_esc_str_push(a.drop_first(), x);
        assert(esc_str(a.push(x)) =~= esc_str(a) + esc_char(x));
    }
}

/// The body of a string token from position `i` (just inside the opening
/// quote): the decoded characters and the position after the closing quote.
pub open spec fn parse_str_chars(s: Seq<char>, i: int) -> Option<(Seq<char>, int)>
    decreases s.len() - i,
{
    if i < 0 || i >= s.len() {
        None
    } else if s[i] == '"' {
        Some((Seq::empty(), i + 1))
    } else if s[i] == '\\' {
        if i + 1 >= s.len() {
            None
        } else {
            let e = s[i + 1];
            if e == '"' || e == '\\' {
                match parse_str_chars(s, i + 2) {
                    Some((t, j)) => Some((seq![e] + t, j)),
                    None => None,
                }
            } else if e == 'u' {
                if i + 5 >= s.len() {
                    None
                } else if s[i + 2] == '0' && s[i + 3] == '0' && is_hex(s[i + 4]) && is_hex(
                    s[i + 5],
                ) {
                    let v = hex_val(s[i + 4]) * 16 + hex_val(s[i + 5]);
                    if v < 32 {
                        match parse_str_chars(s, i + 6) {
                            Some((t, j)) => Some((seq![(v as u8) as char] + t, j)),
                            None => None,
                        }
                    } else {
                        None
                    }
                } else {
                    None
                }
            } else {
                None
            }
        }
    } else {
        match parse_str_chars(s, i + 1) {
            Some((t, j)) => Some((seq![s[i]] + t, j)),
            None => None,
        }
    }
}

/// A string token at position `i`: an opening quote, then the body.
pub open spec fn parse_str_tok(s: Seq<char>, i: int) -> Option<(Seq<char>, int)> {
    if 0 <= i < s.len() && s[i] == '"' {
        parse_str_chars(s, i + 1)
    } else {
        None
    }
}

/// Reading a string token back from its encoding yields the original text:
/// the decoder inverts the encoder wherever the encoding appears.
pub proof fn lemma_parse_str_of_enc(s: Seq<char>, i: int, t: Seq<char>)
    requires
        0 <= i,
        i + enc_str_tok(t).len() <= s.len(),
        s.subrange(i, i + enc_str_tok(t).len()) == enc_str_tok(t),
    ensures
        parse_str_tok(s, i) == Some((t, i + enc_str_tok(t).len())),
{
    let enc = enc_str_tok(t);
    let body = esc_str(t) + seq!['"'];
    assert(s[i] == '"') by {
        assert(s.subrange(i, i + enc.len())[0] == enc[0]);
        assert(enc[0] == (seq!['"'] + esc_str(t))[0]);
    }
    assert(s.subrange(i + 1, i + 1 + esc_str(t).len() + 1) =~= body) by {
        assert forall|k: int|
            0 <= k < body.len() implies s.subrange(i + 1, i + 1 + body.len())[k] == body[k] by {
            assert(s.subrange(i + 1, i + 1 + body.len())[k] == s.index(i + 1 + k));
            assert(s.subrange(i, i + enc.len())[1 + k] == enc[1 + k]);
            if k < esc_str(t).len() {
                assert(enc[1 + k] == (seq!['"'] + esc_str(t))[1 + k]);
                assert((seq!['"'] + esc_str(t))[1 + k] == esc_str(t)[k]);
                assert(body[k] == esc_str(t)[k]);
            } else {
                assert(enc[1 + k] == seq!['"'][0]);
                assert(body[k] == seq!['"'][0]);
            }
        }
    }
    lemma_parse_esc(s, i + 1, t);
}

proof fn lemma_parse_esc(s: Seq<char>, i: int, t: Seq<char>)
    requires
        0 <= i,
        i + esc_str(t).len() + 1 <= s.len(),
        s.subrange(i, i + esc_str(t).len() + 1) == esc_str(t) + seq!['"'],
    ensures
        parse_str_chars(s, i) == Some((t, i + esc_str(t).len() + 1)),
    decreases t.len(),
{
    let whole = esc_str(t) + seq!['"'];
    if t.len() == 0 {
        assert(s[i] == '"') by {
            assert(s.subrange(i, i + whole.len())[0] == whole[0]);
            assert(whole[0] == seq!['"'][0]);
        }
    } else {
        let c = t[0];
        let e = esc_char(c);
        let rest = t.drop_first();
        assert(esc_str(t) == e + esc_str(rest));
        let i2 = i + e.len();
        assert forall|k: int| 0 <= k < e.len() implies s.index(i + k) == e[k] by {
            assert(s.subrange(i, i + whole.len())[k] == whole[k]);
            assert(whole[k] == esc_str(t)[k]);
            assert(esc_str(t)[k] == (e + esc_str(rest))[k]);
        }
        assert(s.subrange(i2, i2 + esc_str(rest).len() + 1) =~= esc_str(rest) + seq!['"']) by {
            let tail = esc_str(rest) + seq!['"'];
            assert forall|k: int|
                0 <= k < tail.len() implies s.subrange(i2, i2 + tail.len())[k] == tail[k] by {
                assert(s.subrange(i2, i2 + tail.len())[k] == s.index(i2 + k));
                assert(s.subrange(i, i + whole.len())[e.len() + k] == whole.index(e.len() + k));
                if k < esc_str(rest).len() {
                    assert(whole.index(e.len() + k) == esc_str(t).index(e.len() + k));
                    assert(esc_str(t).index(e.len() + k) == (e + esc_str(rest)).index(e.len() + k));
                    assert((e + esc_str(rest)).index(e.len() + k) == esc_str(rest)[k]);
                    assert(tail[k] == esc_str(rest)[k]);
                } else {
                    assert(whole.index(e.len() + k) == seq!['"'][0]);
                    assert(tail[k] == seq!['"'][0]);
                }
            }
        }
        lemma_parse_esc(s, i2, rest);
        if c == '"' || c == '\\' {
            assert(e == seq!['\\', c]);
            assert(s.index(i) == '\\' && s.index(i + 1) == c);
            assert(seq![c] + rest =~= t);
        } else if 0 <= c as int && (c as int) < 32 {
            let v = c as int;
            assert(s.index(i) == '\\' && s.index(i + 1) == 'u' && s.index(i + 2) == '0'
                && s.index(i + 3) == '0');
            assert(s.index(i + 4) == hex_digit(v / 16) && s.index(i + 5) == hex_digit(v % 16));
            assert(is_hex(hex_digit(v / 16)) && hex_val(hex_digit(v / 16)) == v / 16);
            assert(is_hex(hex_digit(v % 16)) && hex_val(hex_digit(v % 16)) == v % 16);
            assert(hex_val(s.index(i + 4)) * 16 + hex_val(s.index(i + 5)) == v);
            assert(((v as u8) as char) == c);
            assert(seq![c] + rest =~= t);
        } else {
            assert(e == seq![c]);
            assert(e[0] == c);
            assert(s.index(i) == c);
            assert(c != '"' && c != '\\');
            assert(seq![c] + rest =~= t);
        }
    }
}

/// Consumes decimal digits from position `i`, folding them onto `acc`;
/// returns the value and the first position past the digits.
pub open spec fn parse_digits(s: Seq<char>, i: int, acc: int) -> (int, int)
    decreases s.len() - i,
{
    if 0 <= i && i < s.len() && text::is_digit(s[i]) {
        parse_digits(s, i + 1, acc * 10 + text::digit_val(s[i]))
    } else {
        (acc, i)
    }
}

/// An integer token at position `i`: an optional minus sign, then one or
/// more digits.
pub open spec fn parse_int_tok(s: Seq<char>, i: int) -> Option<(int, int)> {
    if 0 <= i && i < s.len() && s[i] == '-' {
        if i + 1 < s.len() && text::is_digit(s[i + 1]) {
            Some((-parse_digits(s, i + 1, 0).0, parse_digits(s, i + 1, 0).1))
        } else {
            None
        }
    } else if 0 <= i && i < s.len() && text::is_digit(s[i]) {
        Some(parse_digits(s, i, 0))
    } else {
        None
    }
}

/// Powers of ten.
pub open spec fn pow10(k: nat) -> int
    decreases k,
{
    if k == 0 {
        1
    } else {
        10 * pow10((k - 1) as nat)
    }
}

proof fn lemma_digits_val_cons(d: char, rest: Seq<char>)
    ensures
        text::digits_val(seq![d] + rest) == text::digit_val(d) * pow10(rest.len())
            + text::digits_val(rest),
    decreases rest.len(),
{
    let whole = seq![d] + rest;
    if rest.len() == 0 {
        assert(whole =~= seq![d]);
        assert(seq![d].drop_last() =~= Seq::<char>::empty());
        assert(seq![d].last() == d);
        assert(text::digits_val(Seq::<char>::empty()) == 0);
        assert(text::digits_val(seq![d]) == text::digit_val(d));
    } else {
        assert(whole.drop_last() =~= seq![d] + rest.drop_last());
        assert(whole.last() == rest.last());
        lemma_digits_val_cons(d, rest.drop_last());
        assert(pow10(rest.len()) == 10 * pow10((rest.len() - 1) as nat));
        assert((text::digit_val(d) * pow10((rest.len() - 1) as nat)) * 10 == text::digit_val(d)
            * pow10(rest.len())) by (nonlinear_arith)
            requires
                pow10(rest.len()) == 10 * pow10((rest.len() - 1) as nat),
        ;
    }
}

proof fn lemma_parse_digits_of(s: Seq<char>, i: int, dgs: Seq<char>, acc: int)
    requires
        0 <= i,
        i + dgs.len() <= s.len(),
        text::all_digits(dgs),
        s.subrange(i, i + dgs.len()) == dgs,
        i + dgs.len() == s.len() || !text::is_digit(s[i + dgs.len()]),
    ensures
        parse_digits(s, i, acc) == (acc * pow10(dgs.len()) + text::digits_val(dgs), i + dgs.len()),
    decreases dgs.len(),
{
    if dgs.len() == 0 {
        assert(parse_digits(s, i, acc) == (acc, i));
        assert(acc * pow10(0) + text::digits_val(dgs) == acc);
    } else {
        let d0 = dgs[0];
        assert(s.index(i) == d0) by {
            assert(s.subrange(i, i + dgs.len())[0] == dgs[0]);
        }
        assert(text::is_digit(d0));
        let tail = dgs.drop_first();
        assert(s.subrange(i + 1, i + 1 + tail.len()) =~= tail) by {
            assert forall|k: int|
                0 <= k < tail.len() implies s.subrange(i + 1, i + 1 + tail.len())[k] == tail[k] by {
                assert(s.subrange(i + 1, i + 1 + tail.len())[k] == s.index(i + 1 + k));
                assert(s.subrange(i, i + dgs.len())[1 + k] == dgs[1 + k]);
            }
        }
        lemma_parse_digits_of(s, i + 1, tail, acc * 10 + text::digit_val(d0));
        assert(dgs =~= seq![d0] + tail);
        lemma_digits_val_cons(d0, tail);
        assert(pow10(dgs.len()) == 10 * pow10(tail.len()));
        assert((acc * 10 + text::digit_val(d0)) * pow10(tail.len()) == acc * pow10(dgs.len())
            + text::digit_val(d0) * pow10(tail.len())) by (nonlinear_arith)
            requires
                pow10(dgs.len()) == 10 * pow10(tail.len()),
        ;
    }
}

proof fn lemma_dec_str_digits(m: int)
    requires
        m >= 0,
    ensures
        text::all_digits(dec_str(m)),
        text::digits_val(dec_str(m)) == m,
        dec_str(m).len() >= 1,
    decreases m,
{
    if m < 10 {
        let d = currency::dec_digit(m);
        assert(dec_str(m) == seq![d]);
        assert(seq![d].drop_last() =~= Seq::<char>::empty());
        assert(seq![d].last() == d);
        assert(text::digits_val(Seq::<char>::empty()) == 0);
        assert(text::digits_val(dec_str(m)) == text::digit_val(d));
    } else {
        lemma_dec_str_digits(m / 10);
        let whole = dec_str(m / 10).push(currency::dec_digit(m % 10));
        assert(whole.drop_last() =~= dec_str(m / 10));
        assert(text::all_digits(whole)) by {
            assert(forall|k: int|
                0 <= k < whole.len() - 1 ==> #[trigger] whole[k] == dec_str(m / 10)[k]);
            assert(whole.last() == currency::dec_digit(m % 10));
        }
        assert(text::digits_val(whole) == text::digits_val(dec_str(m / 10)) * 10 + text::digit_val(
            currency::dec_digit(m % 10),
        ));
    }
}

/// Reading an integer token back from its encoding yields the original
/// value, provided the next character is not a digit.
pub proof fn lemma_parse_int_of_enc(s: Seq<char>, i: int, n: int)
    requires
        0 <= i,
        i + enc_int_tok(n).len() <= s.len(),
        s.subrange(i, i + enc_int_tok(n).len()) == enc_int_tok(n),
        i + enc_int_tok(n).len() == s.len() || !text::is_digit(s[i + enc_int_tok(n).len()]),
    ensures
        parse_int_tok(s, i) == Some((n, i + enc_int_tok(n).len())),
{
    let enc = enc_int_tok(n);
    if n >= 0 {
        lemma_dec_str_digits(n);
        assert(enc == dec_str(n));
        assert(s.index(i) == dec_str(n)[0]) by {
            assert(s.subrange(i, i + enc.len())[0] == enc[0]);
        }
        assert(text::is_digit(s.index(i)));
        assert(s.index(i) != '-');
        lemma_parse_digits_of(s, i, dec_str(n), 0);
    } else {
        lemma_dec_str_digits(-n);
        let dgs = dec_str(-n);
        assert(enc == seq!['-'] + dgs);
        assert(s.index(i) == '-') by {
            assert(s.subrange(i, i + enc.len())[0] == enc[0]);
            assert(enc[0] == (seq!['-'] + dgs)[0]);
        }
        assert(s.index(i + 1) == dgs[0]) by {
            assert(s.subrange(i, i + enc.len())[1] == enc[1]);
            assert(enc[1] == (seq!['-'] + dgs)[1]);
        }
        assert(text::is_digit(s.index(i + 1)));
        assert(s.subrange(i + 1, i + 1 + dgs.len()) =~= dgs) by {
            assert forall|k: int|
                0 <= k < dgs.len() implies s.subrange(i + 1, i + 1 + dgs.len())[k] == dgs[k] by {
                assert(s.subrange(i + 1, i + 1 + dgs.len())[k] == s.index(i + 1 + k));
                assert(s.subrange(i, i + enc.len())[1 + k] == enc[1 + k]);
                assert(enc[1 + k] == (seq!['-'] + dgs)[1 + k]);
            }
        }
        lemma_parse_digits_of(s, i + 1, dgs, 0);
    }
}

proof fn lemma_parse_digits_grows(s: Seq<char>, i: int, acc: int)
    requires
        acc >= 0,
    ensures
        parse_digits(s, i, acc).0 >= acc,
        parse_digits(s, i, acc).1 >= i,
    decreases s.len() - i,
{
    if 0 <= i && i < s.len() && text::is_digit(s[i]) {
        assert(acc * 10 + text::digit_val(s[i]) >= acc);
        lemma_parse_digits_grows(s, i + 1, acc * 10 + text::digit_val(s[i]));
    }
}

/// Reads an integer token at position `i`; `None` on malformed text or a
/// value outside the `i64` range.
pub(crate) fn read_int_tok(s: &str, i: usize) -> (r: Option<(i64, usize)>)
    requires
        i <= s@.len(),
    ensures
        match parse_int_tok(s@, i as int) {
            Some((v, j)) => {
                if i64::MIN <= v <= i64::MAX {
                    r matches Some(p) && p.0 as int == v && p.1 as int == j && i < j <= s@.len()
                } else {
                    r is None
                }
            },
            None => r is None,
        },
{
    let len = s.unicode_len();
    if i >= len {
        return None;
    }
    let neg = s.get_char(i) as u32 == 45;
    proof {
        assert(neg == (s@[i as int] == '-'));
    }
    let start: usize = if neg {
        i + 1
    } else {
        i
    };
    if start >= len {
        return None;
    }
    let c0 = s.get_char(start) as u32;
    if !(48 <= c0 && c0 <= 57) {
        proof {
            assert(!text::is_digit(s@[start as int]));
        }
        return None;
    }
    let limit: u64 = if neg {
        9223372036854775808
    } else {
        9223372036854775807
    };
    let mut acc: u64 = 0;
    let mut p: usize = start;
    while p < len && is_digit_char(s.get_char(p))
        invariant
            len == s@.len(),
            i < len,
            neg == (s@[i as int] == '-'),
            start as int == i as int + if neg {
                1int
            } else {
                0int
            },
            start < len,
            text::is_digit(s@[start as int]),
            start <= p <= len,
            acc <= limit,
            limit == if neg {
                9223372036854775808u64
            } else {
                9223372036854775807u64
            },
            parse_digits(s@, start as int, 0) == parse_digits(s@, p as int, acc as int),
        decreases len - p,
    {
        let c = s.get_char(p) as u32;
        let d = (c - 48) as u64;
        proof {
            assert(text::is_digit(s@[p as int]));
            assert(text::digit_val(s@[p as int]) == d as int);
        }
        if acc > (limit - d) / 10 {
            proof {
                assert(acc as int * 10 + d as int > limit as int) by (nonlinear_arith)
                    requires
                        acc as int > (limit as int - d as int) / 10,
                        0 <= d as int <= 9,
                        d as int <= limit as int,
                        acc >= 0,
                ;
                lemma_parse_digits_grows(s@, p as int + 1, acc as int * 10 + d as int);
                assert(parse_digits(s@, start as int, 0).0 > limit as int);
            }
            return None;
        }
        proof {
            assert(acc as int * 10 + d as int <= limit as int) by (nonlinear_arith)
                requires
                    acc as int <= (limit as int - d as int) / 10,
                    0 <= d as int <= 9,
                    d as int <= limit as int,
                    acc >= 0,
            ;
        }
        acc = acc * 10 + d;
        p += 1;
    }
    proof {
        assert(p == len || !text::is_digit(s@[p as int]));
        assert(parse_digits(s@, p as int, acc as int) == (acc as int, p as int));
        assert(parse_digits(s@, start as int, 0) == (acc as int, p as int));
        assert(p > start);
    }
    if neg {
        Some(((-(acc as i128)) as i64, p))
    } else {
        Some((acc as i64, p))
    }
}

/// Whether `c` is a decimal digit.
fn is_digit_char(c: char) -> (r: bool)
    ensures
        r == text::is_digit(c),
{
    let u = c as u32;
    48 <= u && u <= 57
}

/// Appends one hexadecimal digit character.
fn append_hex_digit(out: &mut String, d: u64)
    requires
        d < 16,
    ensures
        final(out)@ == old(out)@.push(hex_digit(d as int)),
{
    if d < 10 {
        currency::push_digit(out, d);
        proof {
            assert(currency::dec_digit(d as int) == hex_digit(d as int));
        }
    } else {
        let lit: &str = if d == 10 {
            "a"
        } else if d == 11 {
            "b"
        } else if d == 12 {
            "c"
        } else if d == 13 {
            "d"
        } else if d == 14 {
            "e"
        } else {
            "f"
        };
        proof {
            reveal_strlit("a");
            reveal_strlit("b");
            reveal_strlit("c");
            reveal_strlit("d");
            reveal_strlit("e");
            reveal_strlit("f");
        }
        out.append(lit);
        proof {
            assert(final(out)@ =~= old(out)@.push(hex_digit(d as int)));
        }
    }
}

/// Appends the escaped body of `s`.
fn append_escaped(out: &mut String, s: &str)
    ensures
        final(out)@ == old(out)@ + esc_str(s@),
{
    let len = s.unicode_len();
    let mut k: usize = 0;
    proof {
        assert(s@.take(0) =~= Seq::<char>::empty());
        assert(out@ =~= out@ + esc_str(s@.take(0)));
    }
    while k < len
        invariant
            len == s@.len(),
            k <= len,
            out@ == old(out)@ + esc_str(s@.take(k as int)),
        decreases len - k,
    {
        let ghost pre = s@.take(k as int);
        let c = s.get_char(k);
        let u = c as u32;
        proof {
            assert(s@.take(k as int + 1) =~= pre.push(c));
            lemma_esc_str_push(pre, c);
        }
        if u == 34 {
            out.append("\\\"");
            proof {
                reveal_strlit("\\\"");
                assert(out@ =~= old(out)@ + esc_str(s@.take(k as int + 1)));
            }
        } else if u == 92 {
            out.append("\\\\");
            proof {
                reveal_strlit("\\\\");
                assert(out@ =~= old(out)@ + esc_str(s@.take(k as int + 1)));
            }
        } else if u < 32 {
            out.append("\\u00");
            append_hex_digit(out, ((u / 16) as u64));
            append_hex_digit(out, ((u % 16) as u64));
            proof {
                reveal_strlit("\\u00");
                assert(out@ =~= old(out)@ + esc_str(s@.take(k as int + 1)));
            }
        } else {
            let piece = s.substring_char(k, k + 1);
            out.append(piece);
            proof {
                assert(piece@ =~= seq![c]);
                assert(out@ =~= old(out)@ + esc_str(s@.take(k as int + 1)));
            }
        }
        k += 1;
    }
    proof {
        assert(s@.take(len as int) =~= s@);
    }
}

/// Appends a complete string token.
pub(crate) fn append_str_tok(out: &mut String, s: &str)
    ensures
        final(out)@ == old(out)@ + enc_str_tok(s@),
{
    out.append("\"");
    append_escaped(out, s);
    out.append("\"");
    proof {
        reveal_strlit("\"");
        assert(final(out)@ =~= old(out)@ + enc_str_tok(s@));
    }
}

/// Appends a complete integer token.
pub(crate) fn append_int_tok(out: &mut String, n: i64)
    ensures
        final(out)@ == old(out)@ + enc_int_tok(n as int),
{
    let ghost before = out@;
    if n < 0 {
        out.append("-");
        proof {
            reveal_strlit("-");
        }
    }
    currency::append_dec(out, currency::magnitude(n));
    proof {
        assert(final(out)@ =~= before + enc_int_tok(n as int));
    }
}

/// A one-character string slice holding the control character with scalar
/// value `v`.
fn ctrl_literal(v: u32) -> (r: &'static str)
    requires
        v < 32,
    ensures
        r@ == seq![(v as u8) as char],
{
    let lit: &'static str = if v == 0 {
        "\u{0}"
    } else if v == 1 {
        "\u{1}"
    } else if v == 2 {
        "\u{2}"
    } else if v == 3 {
        "\u{3}"
    } else if v == 4 {
        "\u{4}"
    } else if v == 5 {
        "\u{5}"
    } else if v == 6 {
        "\u{6}"
    } else if v == 7 {
        "\u{7}"
    } else if v == 8 {
        "\u{8}"
    } else if v == 9 {
        "\u{9}"
    } else if v == 10 {
        "\u{a}"
    } else if v == 11 {
        "\u{b}"
    } else if v == 12 {
        "\u{c}"
    } else if v == 13 {
        "\u{d}"
    } else if v == 14 {
        "\u{e}"
    } else if v == 15 {
        "\u{f}"
    } else if v == 16 {
        "\u{10}"
    } else if v == 17 {
        "\u{11}"
    } else if v == 18 {
        "\u{12}"
    } else if v == 19 {
        "\u{13}"
    } else if v == 20 {
        "\u{14}"
    } else if v == 21 {
        "\u{15}"
    } else if v == 22 {
        "\u{16}"
    } else if v == 23 {
        "\u{17}"
    } else if v == 24 {
        "\u{18}"
    } else if v == 25 {
        "\u{19}"
    } else if v == 26 {
        "\u{1a}"
    } else if v == 27 {
        "\u{1b}"
    } else if v == 28 {
        "\u{1c}"
    } else if v == 29 {
        "\u{1d}"
    } else if v == 30 {
        "\u{1e}"
    } else {
        "\u{1f}"
    };
    proof {
        reveal_strlit("\u{0}");
        reveal_strlit("\u{1}");
        reveal_strlit("\u{2}");
        reveal_strlit("\u{3}");
        reveal_strlit("\u{4}");
        reveal_strlit("\u{5}");
        reveal_strlit("\u{6}");
        reveal_strlit("\u{7}");
        reveal_strlit("\u{8}");
        reveal_strlit("\u{9}");
        reveal_strlit("\u{a}");
        reveal_strlit("\u{b}");
        reveal_strlit("\u{c}");
        reveal_strlit("\u{d}");
        reveal_strlit("\u{e}");
        reveal_strlit("\u{f}");
        reveal_strlit("\u{10}");
        reveal_strlit("\u{11}");
        reveal_strlit("\u{12}");
        reveal_strlit("\u{13}");
        reveal_strlit("\u{14}");
        reveal_strlit("\u{15}");
        reveal_strlit("\u{16}");
        reveal_strlit("\u{17}");
        reveal_strlit("\u{18}");
        reveal_strlit("\u{19}");
        reveal_strlit("\u{1a}");
        reveal_strlit("\u{1b}");
        reveal_strlit("\u{1c}");
        reveal_strlit("\u{1d}");
        reveal_strlit("\u{1e}");
        reveal_strlit("\u{1f}");
        assert(lit@ =~= seq![(v as u8) as char]);
    }
    lit
}

/// Value of a lower-case hexadecimal digit character; 16 for anything else.
fn hex_val_or_16(c: char) -> (r: u32)
    ensures
        (r < 16) == is_hex(c),
        is_hex(c) ==> r as int == hex_val(c),
{
    let u = c as u32;
    if 48 <= u && u <= 57 {
        u - 48
    } else if 97 <= u && u <= 102 {
        u - 87
    } else {
        16
    }
}

/// Reads a string token at position `i`, as the parser specification does.
pub(crate) fn read_str_tok(s: &str, i: usize) -> (r: Option<(String, usize)>)
    requires
        i <= s@.len(),
    ensures
        match r {
            Some((t, j)) => parse_str_tok(s@, i as int) == Some((t@, j as int)) && i < j <= s@.len(),
            None => parse_str_tok(s@, i as int) is None,
        },
{
    let len = s.unicode_len();
    if i >= len {
        return None;
    }
    if s.get_char(i) as u32 != 34 {
        proof {
            assert(s@[i as int] != '"');
        }
        return None;
    }
    let mut acc = String::new();
    let mut pos: usize = i + 1;
    proof {
        assert forall|t: Seq<char>| Seq::<char>::empty() + t == t by {
            assert(Seq::<char>::empty() + t =~= t);
        }
    }
    while pos < len
        invariant
            len == s@.len(),
            i as int + 1 <= pos as int <= len,
            s@[i as int] == '"',
            match parse_str_chars(s@, pos as int) {
                Some((t, j)) => parse_str_chars(s@, i as int + 1) == Some((acc@ + t, j)),
                None => parse_str_chars(s@, i as int + 1) is None,
            },
        decreases len - pos,
    {
        let c = s.get_char(pos);
        let u = c as u32;
        if u == 34 {
            proof {
                assert(acc@ + Seq::<char>::empty() =~= acc@);
            }
            return Some((acc, pos + 1));
        } else if u == 92 {
            if pos + 1 >= len {
                return None;
            }
            let e = s.get_char(pos + 1);
            let eu = e as u32;
            if eu == 34 {
                let ghost old_acc = acc@;
                acc.append("\"");
                proof {
                    reveal_strlit("\"");
                    assert forall|t: Seq<char>| old_acc + (seq!['"'] + t) == acc@ + t by {
                        assert(old_acc + (seq!['"'] + t) =~= acc@ + t);
                    }
                }
                pos += 2;
            } else if eu == 92 {
                let ghost old_acc = acc@;
                acc.append("\\");
                proof {
                    reveal_strlit("\\");
                    assert forall|t: Seq<char>| old_acc + (seq!['\\'] + t) == acc@ + t by {
                        assert(old_acc + (seq!['\\'] + t) =~= acc@ + t);
                    }
                }
                pos += 2;
            } else if eu == 117 {
                if len - pos <= 5 {
                    return None;
                }
                let c2 = s.get_char(pos + 2) as u32;
                let c3 = s.get_char(pos + 3) as u32;
                if c2 != 48 || c3 != 48 {
                    proof {
                        assert(s@[pos as int + 2] != '0' || s@[pos as int + 3] != '0');
                    }
                    return None;
                }
                let v1 = hex_val_or_16(s.get_char(pos + 4));
                let v2 = hex_val_or_16(s.get_char(pos + 5));
                if v1 >= 16 || v2 >= 16 {
                    return None;
                }
                let v = v1 * 16 + v2;
                if v >= 32 {
                    return None;
                }
                let ghost old_acc = acc@;
                acc.append(ctrl_literal(v));
                proof {
                    assert forall|t: Seq<char>| old_acc + (seq![(v as u8) as char] + t) == acc@
                        + t by {
                        assert(old_acc + (seq![(v as u8) as char] + t) =~= acc@ + t);
                    }
                }
                pos += 6;
            } else {
                proof {
                    assert(s@[pos as int + 1] != '"' && s@[pos as int + 1] != '\\' && s@[pos as int
                        + 1] != 'u');
                }
                return None;
            }
        } else {
            let piece = s.substring_char(pos, pos + 1);
            let ghost old_acc = acc@;
            acc.append(piece);
            proof {
                assert(piece@ =~= seq![c]);
                assert forall|t: Seq<char>| old_acc + (seq![c] + t) == acc@ + t by {
                    assert(old_acc + (seq![c] + t) =~= acc@ + t);
                }
            }
            pos += 1;
        }
    }
    None
}

} // verus!
