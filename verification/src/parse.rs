//! Recognising numeric text.
//!
//! Schema inference asks two questions of every non-empty field: does the
//! text denote a 64-bit integer, and does it denote a real number?  Both
//! questions are answered here against explicit grammars.
//!
//! Integer text is an optional sign followed by one or more decimal digits,
//! naming a value within the range of `i64`.  Real-number text follows the
//! grammar that Rust's standard library documents for reading an `f64`:
//! an optional sign, then either `inf`, `infinity` or `nan` (in any casing)
//! or a run of digits with at most one dot and at least one digit, with an
//! optional exponent part `e`/`E`, optional sign, digits.  A real number
//! never fails for being too large, so the grammar alone decides.

use vstd::prelude::*;

verus! {

/// `c` is a decimal digit.
pub open spec fn is_digit(c: char) -> bool {
    '0' as int <= c as int && c as int <= '9' as int
}

/// The numeric value of a digit.
pub open spec fn digit_val(c: char) -> int {
    c as int - '0' as int
}

/// The number named by a run of digits, most significant first.
pub open spec fn digits_value(s: Seq<char>) -> int
    decreases s.len(),
{
    if s.len() == 0 {
        0
    } else {
        digits_value(s.drop_last()) * 10 + digit_val(s.last())
    }
}

/// Every character of `s` is a decimal digit.
pub open spec fn all_digits(s: Seq<char>) -> bool {
    forall|i: int| 0 <= i < s.len() ==> is_digit(s[i])
}

/// `s` opens with an explicit sign.
pub open spec fn has_sign(s: Seq<char>) -> bool {
    s.len() > 0 && (s[0] == '+' || s[0] == '-')
}

/// `s` without its sign, when it carries one.
pub open spec fn after_sign(s: Seq<char>) -> Seq<char> {
    if has_sign(s) {
        s.subrange(1, s.len() as int)
    } else {
        s
    }
}

/// `s` names a negative number.
pub open spec fn is_negative(s: Seq<char>) -> bool {
    s.len() > 0 && s[0] == '-'
}

/// `s` is an optional sign followed by at least one digit.
pub open spec fn is_int_syntax(s: Seq<char>) -> bool {
    after_sign(s).len() > 0 && all_digits(after_sign(s))
}

/// The integer named by `s`, read under [`is_int_syntax`].
pub open spec fn int_text_value(s: Seq<char>) -> int {
    if is_negative(s) {
        -digits_value(after_sign(s))
    } else {
        digits_value(after_sign(s))
    }
}

/// `s` is integer text: well-formed and within the range of `i64`.
pub open spec fn is_int_text(s: Seq<char>) -> bool {
    &&& is_int_syntax(s)
    &&& i64::MIN <= int_text_value(s) <= i64::MAX
}

proof fn lemma_digits_value_nonneg(s: Seq<char>)
    requires
        all_digits(s),
    ensures
        digits_value(s) >= 0,
    decreases s.len(),
{
    if s.len() > 0 {
        assert(all_digits(s.drop_last()));
        lemma_digits_value_nonneg(s.drop_last());
    }
}

/// The two answers of one scan of integer text: whether the digits stayed
/// within `limit`, and their value when they did.
#[verifier::loop_isolation(false)]
fn scan_digits(s: &str, start: usize, n: usize, limit: u64) -> (r: Option<u64>)
    requires
        start <= n,
        n == s@.len(),
        limit >= 9,
    ensures
        ({
            let digits = s@.subrange(start as int, n as int);
            match r {
                Some(acc) => all_digits(digits) && acc == digits_value(digits) && acc <= limit,
                None => !all_digits(digits) || digits_value(digits) > limit,
            }
        }),
{
    let mut acc: u64 = 0;
    let mut overflow = false;
    let mut i: usize = start;
    while i < n
        invariant
            start <= i <= n,
            n == s@.len(),
            all_digits(s@.subrange(start as int, i as int)),
            !overflow ==> acc == digits_value(s@.subrange(start as int, i as int)) && acc
                <= limit,
            overflow ==> digits_value(s@.subrange(start as int, i as int)) > limit,
        decreases n - i,
    {
        let ghost prefix = s@.subrange(start as int, i as int);
        let ghost extended = s@.subrange(start as int, i as int + 1);
        assert(extended.drop_last() =~= prefix);
        assert(extended.last() == s@[i as int]);
        let c = s.get_char(i);
        let u = c as u32;
        if u < 48 || u > 57 {
            assert(!is_digit(extended.last()));
            assert(!all_digits(s@.subrange(start as int, n as int))) by {
                assert(s@.subrange(start as int, n as int)[i - start] == s@[i as int]);
            }
            return None;
        }
        assert(is_digit(c));
        let d = (u - 48) as u64;
        assert(d <= 9);
        assert(d == digit_val(c));
        proof {
            lemma_digits_value_nonneg(prefix);
        }
        if overflow {
            assert(digits_value(extended) > limit) by {
                assert(digits_value(extended) == digits_value(prefix) * 10 + digit_val(c));
            }
        } else {
            if acc > (limit - d) / 10 {
                overflow = true;
                assert(digits_value(extended) > limit) by {
                    assert(digits_value(extended) == acc * 10 + d);
                    assert((limit - d) / 10 * 10 + (limit - d) % 10 == limit - d);
                }
            } else {
                assert(acc * 10 + d <= limit) by {
                    assert(acc * 10 <= (limit - d) / 10 * 10);
                    assert((limit - d) / 10 * 10 + (limit - d) % 10 == limit - d);
                }
                acc = acc * 10 + d;
            }
        }
        i = i + 1;
    }
    if overflow {
        None
    } else {
        Some(acc)
    }
}

/// Reads `s` as a 64-bit integer.  Returns the named value exactly when `s`
/// is integer text, and nothing otherwise.
pub fn parse_i64(s: &str) -> (r: Option<i64>)
    ensures
        r is Some <==> is_int_text(s@),
        r is Some ==> r.unwrap() as int == int_text_value(s@),
{
    let n = s.unicode_len();
    if n == 0 {
        return None;
    }
    let c0 = s.get_char(0);
    let neg = c0 == '-';
    let start: usize = if c0 == '-' || c0 == '+' {
        1
    } else {
        0
    };
    assert(after_sign(s@) =~= s@.subrange(start as int, n as int));
    if start == n {
        assert(!is_int_syntax(s@));
        return None;
    }
    let limit: u64 = if neg {
        9223372036854775808
    } else {
        9223372036854775807
    };
    let ghost digits = s@.subrange(start as int, n as int);
    match scan_digits(s, start, n, limit) {
        None => {
            proof {
                if all_digits(digits) {
                    lemma_digits_value_nonneg(digits);
                }
            }
            assert(!is_int_text(s@));
            None
        },
        Some(acc) => {
            assert(is_int_syntax(s@));
            if neg {
                if acc == 9223372036854775808 {
                    Some(i64::MIN)
                } else {
                    Some(-(acc as i64))
                }
            } else {
                Some(acc as i64)
            }
        },
    }
}

/// `c` is the letter `lower`, in either casing; `lower` is given in lower
/// case.
pub open spec fn is_letter_ci(c: char, lower: char) -> bool {
    c == lower || c as int + 32 == lower as int
}

/// `s` spells `inf` or `infinity`, in any casing.
pub open spec fn is_inf_text(s: Seq<char>) -> bool {
    ||| (s.len() == 3 && is_letter_ci(s[0], 'i') && is_letter_ci(s[1], 'n') && is_letter_ci(
        s[2],
        'f',
    ))
    ||| (s.len() == 8 && is_letter_ci(s[0], 'i') && is_letter_ci(s[1], 'n') && is_letter_ci(
        s[2],
        'f',
    ) && is_letter_ci(s[3], 'i') && is_letter_ci(s[4], 'n') && is_letter_ci(s[5], 'i')
        && is_letter_ci(s[6], 't') && is_letter_ci(s[7], 'y'))
}

/// `s` spells `nan`, in any casing.
pub open spec fn is_nan_text(s: Seq<char>) -> bool {
    s.len() == 3 && is_letter_ci(s[0], 'n') && is_letter_ci(s[1], 'a') && is_letter_ci(s[2], 'n')
}

/// The position of the first exponent marker `e` or `E`, or the length when
/// there is none.
pub open spec fn exp_pos(s: Seq<char>) -> int
    decreases s.len(),
{
    if s.len() == 0 {
        0
    } else if s[0] == 'e' || s[0] == 'E' {
        0
    } else {
        1 + exp_pos(s.subrange(1, s.len() as int))
    }
}

proof fn lemma_exp_pos(s: Seq<char>)
    ensures
        0 <= exp_pos(s) <= s.len(),
        forall|i: int| 0 <= i < exp_pos(s) ==> s[i] != 'e' && s[i] != 'E',
        exp_pos(s) < s.len() ==> s[exp_pos(s)] == 'e' || s[exp_pos(s)] == 'E',
    decreases s.len(),
{
    if s.len() > 0 && !(s[0] == 'e' || s[0] == 'E') {
        let rest = s.subrange(1, s.len() as int);
        lemma_exp_pos(rest);
        assert forall|i: int| 0 <= i < exp_pos(s) implies s[i] != 'e' && s[i] != 'E' by {
            if i > 0 {
                assert(rest[i - 1] == s[i]);
                assert(rest[i - 1] != 'e' && rest[i - 1] != 'E');
            }
        }
        if exp_pos(s) < s.len() {
            assert(rest[exp_pos(rest)] == s[exp_pos(s)]);
        }
    }
}

/// The mantissa of a real number: digits with at most one dot and at least
/// one digit.
pub open spec fn is_mantissa(s: Seq<char>) -> bool {
    &&& forall|i: int| 0 <= i < s.len() ==> is_digit(s[i]) || s[i] == '.'
    &&& forall|i: int, j: int| 0 <= i < j < s.len() ==> !(s[i] == '.' && s[j] == '.')
    &&& exists|i: int| 0 <= i < s.len() && is_digit(s[i])
}

/// `s` is a mantissa, with an optional exponent part after an `e` or `E`.
pub open spec fn is_number_text(s: Seq<char>) -> bool {
    &&& is_mantissa(s.subrange(0, exp_pos(s)))
    &&& (exp_pos(s) == s.len() || is_int_syntax(s.subrange(exp_pos(s) + 1, s.len() as int)))
}

/// `s` denotes a real number: the grammar the standard library documents for
/// reading an `f64`.
pub open spec fn is_float_text(s: Seq<char>) -> bool {
    ||| is_inf_text(after_sign(s))
    ||| is_nan_text(after_sign(s))
    ||| is_number_text(after_sign(s))
}

/// Well-formed integer text also denotes a real number.
pub proof fn lemma_int_text_is_float_text(s: Seq<char>)
    requires
        is_int_syntax(s),
    ensures
        is_float_text(s),
{
    let body = after_sign(s);
    lemma_exp_pos(body);
    if exp_pos(body) < body.len() {
        assert(is_digit(body[exp_pos(body)]));
        assert(false);
    }
    assert(body.subrange(0, exp_pos(body)) =~= body);
    assert(is_digit(body[0]));
    assert(is_mantissa(body));
}

fn letter_ci(c: char, lower: char) -> (r: bool)
    ensures
        r == is_letter_ci(c, lower),
{
    c == lower || (c as u32) + 32 == lower as u32
}

/// Decides whether the characters of `s` from `start` on spell `inf`,
/// `infinity` or `nan` in any casing.
fn special_float_body(s: &str, start: usize, n: usize) -> (r: bool)
    requires
        start <= n,
        n == s@.len(),
    ensures
        r == (is_inf_text(s@.subrange(start as int, n as int)) || is_nan_text(
            s@.subrange(start as int, n as int),
        )),
{
    let ghost body = s@.subrange(start as int, n as int);
    let len = n - start;
    if len == 3 {
        let c0 = s.get_char(start);
        let c1 = s.get_char(start + 1);
        let c2 = s.get_char(start + 2);
        assert(forall|i: int| 0 <= i < 3 ==> body[i] == s@[start + i]);
        (letter_ci(c0, 'i') && letter_ci(c1, 'n') && letter_ci(c2, 'f')) || (letter_ci(c0, 'n')
            && letter_ci(c1, 'a') && letter_ci(c2, 'n'))
    } else if len == 8 {
        let c0 = s.get_char(start);
        let c1 = s.get_char(start + 1);
        let c2 = s.get_char(start + 2);
        let c3 = s.get_char(start + 3);
        let c4 = s.get_char(start + 4);
        let c5 = s.get_char(start + 5);
        let c6 = s.get_char(start + 6);
        let c7 = s.get_char(start + 7);
        assert(forall|i: int| 0 <= i < 8 ==> body[i] == s@[start + i]);
        letter_ci(c0, 'i') && letter_ci(c1, 'n') && letter_ci(c2, 'f') && letter_ci(c3, 'i')
            && letter_ci(c4, 'n') && letter_ci(c5, 'i') && letter_ci(c6, 't') && letter_ci(
            c7,
            'y',
        )
    } else {
        false
    }
}

/// Decides whether `s` denotes a real number, by the grammar of
/// [`is_float_text`].
#[verifier::rlimit(60)]
#[verifier::loop_isolation(false)]
pub fn is_float_literal(s: &str) -> (r: bool)
    ensures
        r == is_float_text(s@),
{
    let n = s.unicode_len();
    if n == 0 {
        return false;
    }
    let c0 = s.get_char(0);
    let start: usize = if c0 == '-' || c0 == '+' {
        1
    } else {
        0
    };
    let ghost body = after_sign(s@);
    assert(body =~= s@.subrange(start as int, n as int));
    if special_float_body(s, start, n) {
        return true;
    }
    proof {
        lemma_exp_pos(body);
    }
    // Find the first exponent marker.
    let mut e: usize = n;
    let mut found = false;
    let mut pos: usize = start;
    while pos < n
        invariant
            start <= pos <= n,
            n == s@.len(),
            found ==> start <= e < pos && (s@[e as int] == 'e' || s@[e as int] == 'E'),
            forall|i: int| start <= i < (if found { e as int } else { pos as int }) ==> s@[i]
                != 'e' && s@[i] != 'E',
            !found ==> e == n,
        decreases n - pos,
    {
        if !found {
            let c = s.get_char(pos);
            if c == 'e' || c == 'E' {
                e = pos;
                found = true;
            }
        }
        pos = pos + 1;
    }
    assert(e - start == exp_pos(body)) by {
        assert(forall|i: int| 0 <= i < body.len() ==> body[i] == s@[start + i]);
        if e - start < exp_pos(body) {
            assert(s@[e as int] == 'e' || s@[e as int] == 'E');
            assert(body[e - start] != 'e' && body[e - start] != 'E');
        }
        if e - start > exp_pos(body) {
            assert(body[exp_pos(body)] == 'e' || body[exp_pos(body)] == 'E');
        }
    }
    let ghost mantissa = body.subrange(0, exp_pos(body));
    assert(forall|i: int| 0 <= i < mantissa.len() ==> mantissa[i] == s@[start + i]);
    // Check the mantissa: digits, at most one dot, at least one digit.
    let mut saw_digit = false;
    let mut saw_dot = false;
    let ghost mut dot_at: int = 0;
    let mut i: usize = start;
    while i < e
        invariant
            start <= i <= e <= n,
            n == s@.len(),
            mantissa.len() == e - start,
            forall|k: int| 0 <= k < mantissa.len() ==> mantissa[k] == s@[start + k],
            forall|k: int| start <= k < i ==> is_digit(s@[k]) || s@[k] == '.',
            saw_digit <==> exists|k: int| start <= k < i && is_digit(s@[k]),
            !saw_dot ==> forall|k: int| start <= k < i ==> s@[k] != '.',
            saw_dot ==> start <= dot_at < i && s@[dot_at] == '.' && forall|k: int|
                start <= k < i && k != dot_at ==> s@[k] != '.',
        decreases e - i,
    {
        let c = s.get_char(i);
        let u = c as u32;
        if u >= 48 && u <= 57 {
            saw_digit = true;
        } else if c == '.' {
            if saw_dot {
                assert(!is_mantissa(mantissa)) by {
                    assert(mantissa[dot_at - start] == '.' && mantissa[i - start] == '.');
                }
                return false;
            }
            saw_dot = true;
            proof {
                dot_at = i as int;
            }
        } else {
            assert(!is_mantissa(mantissa)) by {
                assert(mantissa[i - start] == s@[i as int]);
            }
            return false;
        }
        i = i + 1;
    }
    if !saw_digit {
        assert(!is_mantissa(mantissa));
        return false;
    }
    assert(is_mantissa(mantissa)) by {
        assert(forall|k: int| 0 <= k < mantissa.len() ==> is_digit(mantissa[k]) || mantissa[k]
            == '.');
        let w = choose|k: int| start <= k < e && is_digit(s@[k]);
        assert(is_digit(mantissa[w - start]));
    }
    if e == n {
        return true;
    }
    // Check the exponent part: an optional sign, then at least one digit.
    let ghost exponent = body.subrange(exp_pos(body) + 1, body.len() as int);
    assert(forall|k: int| 0 <= k < exponent.len() ==> exponent[k] == s@[e + 1 + k]);
    if e + 1 == n {
        assert(!is_int_syntax(exponent));
        return false;
    }
    let c1 = s.get_char(e + 1);
    let dstart: usize = if c1 == '-' || c1 == '+' {
        e + 2
    } else {
        e + 1
    };
    assert(after_sign(exponent) =~= s@.subrange(dstart as int, n as int));
    if dstart == n {
        assert(!is_int_syntax(exponent));
        return false;
    }
    let mut j: usize = dstart;
    while j < n
        invariant
            dstart <= j <= n,
            n == s@.len(),
            after_sign(exponent) =~= s@.subrange(dstart as int, n as int),
            forall|k: int| dstart <= k < j ==> is_digit(s@[k]),
        decreases n - j,
    {
        let c = s.get_char(j);
        let u = c as u32;
        if u < 48 || u > 57 {
            assert(!all_digits(after_sign(exponent))) by {
                assert(after_sign(exponent)[j - dstart] == s@[j as int]);
            }
            return false;
        }
        j = j + 1;
    }
    assert(all_digits(after_sign(exponent))) by {
        assert(forall|k: int| 0 <= k < after_sign(exponent).len() ==> after_sign(exponent)[k]
            == s@[dstart + k]);
    }
    true
}

/// Character-wise equality of two pieces of text.
#[verifier::loop_isolation(false)]
pub fn str_eq(a: &str, b: &str) -> (r: bool)
    ensures
        r == (a@ == b@),
{
    let na = a.unicode_len();
    let nb = b.unicode_len();
    if na != nb {
        assert(a@ != b@);
        return false;
    }
    let mut i: usize = 0;
    while i < na
        invariant
            0 <= i <= na,
            na == a@.len(),
            na == b@.len(),
            forall|k: int| 0 <= k < i ==> a@[k] == b@[k],
        decreases na - i,
    {
        if a.get_char(i) != b.get_char(i) {
            return false;
        }
        i = i + 1;
    }
    assert(a@ =~= b@);
    true
}

} // verus!
