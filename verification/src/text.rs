//! Small text utilities shared by the validation and persistence logic:
//! ASCII case-insensitive comparison, whitespace trimming, and decimal
//! integer parsing with the standard library's `parse::<i64>` semantics.

use vstd::prelude::*;

verus! {

/// The Unicode scalar value of `c` with an ASCII upper-case letter folded
/// to its lower-case counterpart.
pub open spec fn lower_val(c: char) -> int {
    if 65 <= c as int && c as int <= 90 {
        c as int + 32
    } else {
        c as int
    }
}

/// Character sequences equal up to ASCII case.
pub open spec fn seq_ci_eq(a: Seq<char>, b: Seq<char>) -> bool {
    a.len() == b.len() && forall|i: int| 0 <= i < a.len() ==> lower_val(a[i]) == lower_val(b[i])
}

/// Folds one character for comparison.
fn lower_u32(c: char) -> (r: u32)
    ensures
        r as int == lower_val(c),
{
    let u = c as u32;
    if 65 <= u && u <= 90 {
        u + 32
    } else {
        u
    }
}

/// ASCII case-insensitive string equality.
pub fn eq_ignore_case(a: &str, b: &str) -> (r: bool)
    ensures
        r == seq_ci_eq(a@, b@),
{
    let la = a.unicode_len();
    let lb = b.unicode_len();
    if la != lb {
        return false;
    }
    let mut i: usize = 0;
    while i < la
        invariant
            la == a@.len(),
            la == b@.len(),
            i <= la,
            forall|k: int| 0 <= k < i ==> lower_val(a@[k]) == lower_val(b@[k]),
        decreases la - i,
    {
        let ca = a.get_char(i);
        let cb = b.get_char(i);
        if lower_u32(ca) != lower_u32(cb) {
            return false;
        }
        i += 1;
    }
    true
}

/// Exact string equality.
pub fn str_eq(a: &str, b: &str) -> (r: bool)
    ensures
        r == (a@ == b@),
{
    let la = a.unicode_len();
    let lb = b.unicode_len();
    if la != lb {
        return false;
    }
    let mut i: usize = 0;
    while i < la
        invariant
            la == a@.len(),
            la == b@.len(),
            i <= la,
            forall|k: int| 0 <= k < i ==> a@[k] == b@[k],
        decreases la - i,
    {
        if a.get_char(i) != b.get_char(i) {
            return false;
        }
        i += 1;
    }
    proof {
        assert(a@ =~= b@);
    }
    true
}

/// The Unicode `White_Space` characters, the set `str::trim` removes.
pub open spec fn is_space(c: char) -> bool {
    let u = c as int;
    u == 9 || u == 10 || u == 11 || u == 12 || u == 13 || u == 32 || u == 0x85 || u == 0xA0
        || u == 0x1680 || (0x2000 <= u && u <= 0x200A) || u == 0x2028 || u == 0x2029 || u == 0x202F
        || u == 0x205F || u == 0x3000
}

/// `s` without leading white space.
pub open spec fn trim_start(s: Seq<char>) -> Seq<char>
    decreases s.len(),
{
    if s.len() > 0 && is_space(s[0]) {
        trim_start(s.drop_first())
    } else {
        s
    }
}

/// `s` without trailing white space.
pub open spec fn trim_end(s: Seq<char>) -> Seq<char>
    decreases s.len(),
{
    if s.len() > 0 && is_space(s.last()) {
        trim_end(s.drop_last())
    } else {
        s
    }
}

/// `s` without leading and trailing white space.
pub open spec fn spec_trim(s: Seq<char>) -> Seq<char> {
    trim_end(trim_start(s))
}

/// Whether `c` is white space.
fn is_space_char(c: char) -> (r: bool)
    ensures
        r == is_space(c),
{
    let u = c as u32;
    u == 9 || u == 10 || u == 11 || u == 12 || u == 13 || u == 32 || u == 0x85 || u == 0xA0
        || u == 0x1680 || (0x2000 <= u && u <= 0x200A) || u == 0x2028 || u == 0x2029 || u == 0x202F
        || u == 0x205F || u == 0x3000
}

/// A copy of `s` with leading and trailing white space removed, as
/// `str::trim` produces.
pub fn trim_str(s: &str) -> (r: String)
    ensures
        r@ == spec_trim(s@),
{
    let len = s.unicode_len();
    let mut i: usize = 0;
    proof {
        assert(s@.skip(0) =~= s@);
    }
    while i < len && is_space_char(s.get_char(i))
        invariant
            len == s@.len(),
            i <= len,
            trim_start(s@) == trim_start(s@.skip(i as int)),
        decreases len - i,
    {
        proof {
            assert(s@.skip(i as int).drop_first() =~= s@.skip(i as int + 1));
        }
        i += 1;
    }
    proof {
        assert(trim_start(s@) == s@.skip(i as int));
    }
    let mut j: usize = len;
    while j > i && is_space_char(s.get_char(j - 1))
        invariant
            len == s@.len(),
            i <= j <= len,
            trim_start(s@) == s@.skip(i as int),
            trim_end(s@.skip(i as int)) == trim_end(s@.subrange(i as int, j as int)),
        decreases j,
    {
        proof {
            assert(s@.subrange(i as int, j as int).last() == s@[j - 1]);
            assert(s@.subrange(i as int, j as int).drop_last() =~= s@.subrange(
                i as int,
                j as int - 1,
            ));
        }
        j -= 1;
    }
    proof {
        assert(s@.skip(i as int) =~= s@.subrange(i as int, len as int));
        assert(trim_end(s@.subrange(i as int, j as int)) == s@.subrange(i as int, j as int));
    }
    let piece = s.substring_char(i, j);
    piece.to_owned()
}

/// ASCII decimal digit.
pub open spec fn is_digit(c: char) -> bool {
    48 <= c as int && c as int <= 57
}

/// Numeric value of a decimal digit character.
pub open spec fn digit_val(c: char) -> int {
    c as int - 48
}

/// Every character of `s` is a decimal digit.
pub open spec fn all_digits(s: Seq<char>) -> bool {
    forall|i: int| 0 <= i < s.len() ==> is_digit(s[i])
}

/// The value of a digit string read in base ten.
pub open spec fn digits_val(s: Seq<char>) -> int
    decreases s.len(),
{
    if s.len() == 0 {
        0
    } else {
        digits_val(s.drop_last()) * 10 + digit_val(s.last())
    }
}

/// The digit part of an optionally signed integer literal.
pub open spec fn int_body(s: Seq<char>) -> Seq<char> {
    if s.len() > 0 && (s[0] == '+' || s[0] == '-') {
        s.drop_first()
    } else {
        s
    }
}

/// Whether the literal carries a minus sign.
pub open spec fn int_negative(s: Seq<char>) -> bool {
    s.len() > 0 && s[0] == '-'
}

/// The signed value denoted by the literal.
pub open spec fn parsed_i64(s: Seq<char>) -> int {
    if int_negative(s) {
        -digits_val(int_body(s))
    } else {
        digits_val(int_body(s))
    }
}

/// Whether `str::parse::<i64>` accepts `s`: an optional sign, then one or
/// more digits and nothing else, denoting a value that fits in `i64`.
pub open spec fn parse_i64_ok(s: Seq<char>) -> bool {
    int_body(s).len() > 0 && all_digits(int_body(s)) && i64::MIN <= parsed_i64(s) <= i64::MAX
}

/// The parsed value with failures collapsed to zero.
pub open spec fn parsed_or_zero(s: Seq<char>) -> int {
    if parse_i64_ok(s) {
        parsed_i64(s)
    } else {
        0
    }
}

proof fn lemma_digits_val_nonneg(s: Seq<char>)
    requires
        all_digits(s),
    ensures
        digits_val(s) >= 0,
    decreases s.len(),
{
    if s.len() > 0 {
        lemma_digits_val_nonneg(s.drop_last());
    }
}

proof fn lemma_digits_val_prefix(s: Seq<char>, m: int)
    requires
        all_digits(s),
        0 <= m <= s.len(),
    ensures
        digits_val(s.take(m)) >= 0,
        digits_val(s) >= digits_val(s.take(m)),
    decreases s.len() - m,
{
    assert(all_digits(s.take(m)));
    lemma_digits_val_nonneg(s.take(m));
    if m < s.len() {
        lemma_digits_val_prefix(s, m + 1);
        assert(s.take(m + 1).drop_last() =~= s.take(m));
        assert(digits_val(s.take(m + 1)) == digits_val(s.take(m)) * 10 + digit_val(s[m]));
    } else {
        assert(s.take(m) =~= s);
    }
}

/// Parses `s` as `str::parse::<i64>` does: `Some` exactly when the whole
/// string is an optionally signed decimal integer that fits in `i64`.
pub fn parse_i64(s: &str) -> (r: Option<i64>)
    ensures
        parse_i64_ok(s@) <==> r is Some,
        r is Some ==> r->0 as int == parsed_i64(s@),
{
    let len = s.unicode_len();
    if len == 0 {
        return None;
    }
    let c0 = s.get_char(0);
    let neg = c0 == '-';
    let start: usize = if c0 == '-' || c0 == '+' {
        1
    } else {
        0
    };
    if start >= len {
        return None;
    }
    let ghost body = int_body(s@);
    proof {
        assert(body =~= s@.subrange(start as int, len as int));
    }
    let limit: u64 = if neg {
        9223372036854775808
    } else {
        9223372036854775807
    };
    let mut acc: u64 = 0;
    let mut k: usize = start;
    proof {
        assert(s@.subrange(start as int, start as int) =~= Seq::<char>::empty());
    }
    while k < len
        invariant
            len == s@.len(),
            start <= k <= len,
            start < len,
            body == s@.subrange(start as int, len as int),
            body == int_body(s@),
            neg == int_negative(s@),
            forall|idx: int| start <= idx < k ==> is_digit(s@[idx]),
            acc as int == digits_val(s@.subrange(start as int, k as int)),
            acc <= limit,
            limit == if neg {
                9223372036854775808u64
            } else {
                9223372036854775807u64
            },
        decreases len - k,
    {
        let c = s.get_char(k);
        let u = c as u32;
        if !(48 <= u && u <= 57) {
            proof {
                assert(!is_digit(body[k - start]));
            }
            return None;
        }
        let d = (u - 48) as u64;
        proof {
            assert(s@.subrange(start as int, k as int + 1).drop_last() =~= s@.subrange(
                start as int,
                k as int,
            ));
            assert(digits_val(s@.subrange(start as int, k as int + 1)) == acc as int * 10
                + d as int);
        }
        if acc > (limit - d) / 10 {
            proof {
                assert(acc as int * 10 + d as int > limit as int) by (nonlinear_arith)
                    requires
                        acc as int > (limit as int - d as int) / 10,
                        0 <= d as int <= 9,
                        d as int <= limit as int,
                        acc >= 0,
                ;
                if parse_i64_ok(s@) {
                    lemma_digits_val_prefix(body, k - start + 1);
                    assert(body.take(k - start + 1) =~= s@.subrange(start as int, k as int + 1));
                    assert(digits_val(body) > limit as int);
                    assert(false);
                }
            }
            return None;
        }
        proof {
            assert(acc as int * 10 + d as int <= limit as int) by (nonlinear_arith)
                requires
                    acc as int <= (limit as int - d as int) / 10,
                    0 <= d as int <= 9,
                    d as int <= limit as int,
                    acc >= 0,
            ;
        }
        acc = acc * 10 + d;
        k += 1;
    }
    proof {
        assert(s@.subrange(start as int, len as int) =~= body);
        assert(acc as int == digits_val(body));
        lemma_digits_val_nonneg(body);
    }
    if neg {
        Some((-(acc as i128)) as i64)
    } else {
        Some(acc as i64)
    }
}

/// `parse_i64` with failures collapsed to zero, as `parse().unwrap_or(0)`.
pub fn parse_i64_or_zero(s: &str) -> (r: i64)
    ensures
        r as int == if parse_i64_ok(s@) {
            parsed_i64(s@)
        } else {
            0
        },
{
    match parse_i64(s) {
        Some(v) => v,
        None => 0,
    }
}

} // verus!
