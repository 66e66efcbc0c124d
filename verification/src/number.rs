//! Number literals: which texts denote an integer, and which a floating-point number.
//!
//! An integer literal is an optional sign followed by decimal digits. A
//! floating-point literal follows the grammar
//!
//! ```text
//! Float  ::= Sign? ( 'inf' | 'infinity' | 'nan' | Number )
//! Number ::= ( Digit+ | Digit+ '.' Digit* | Digit* '.' Digit+ ) Exp?
//! Exp    ::= 'e' Sign? Digit+
//! Sign   ::= [+-]
//! Digit  ::= [0-9]
//! ```
//!
//! in which letters match without regard to case.

use vstd::prelude::*;

verus! {

/// One of the ten decimal digits.
pub open spec fn is_digit(c: char) -> bool {
    '0' <= c <= '9'
}

/// The number a decimal digit stands for.
pub open spec fn digit_value(c: char) -> nat
    recommends
        is_digit(c),
{
    (c as int - '0' as int) as nat
}

/// Every character of `s` is a decimal digit.
pub open spec fn all_digits(s: Seq<char>) -> bool {
    forall|i: int| 0 <= i < s.len() ==> is_digit(#[trigger] s[i])
}

/// The number that a run of decimal digits denotes; the empty run denotes zero.
pub open spec fn decimal_value(s: Seq<char>) -> nat
    decreases s.len(),
{
    if s.len() == 0 {
        0
    } else {
        decimal_value(s.drop_last()) * 10 + digit_value(s.last())
    }
}

/// `s` begins with `+` or `-`.
pub open spec fn has_sign(s: Seq<char>) -> bool {
    s.len() > 0 && (s[0] == '+' || s[0] == '-')
}

/// `s` without its sign, if it has one.
pub open spec fn unsigned_part(s: Seq<char>) -> Seq<char> {
    if has_sign(s) {
        s.skip(1)
    } else {
        s
    }
}

/// An optional sign and then at least one digit, nothing else.
pub open spec fn is_integer_literal(s: Seq<char>) -> bool {
    unsigned_part(s).len() > 0 && all_digits(unsigned_part(s))
}

/// The integer that an integer literal denotes.
pub open spec fn integer_value(s: Seq<char>) -> int
    recommends
        is_integer_literal(s),
{
    if s.len() > 0 && s[0] == '-' {
        -(decimal_value(unsigned_part(s)) as int)
    } else {
        decimal_value(unsigned_part(s)) as int
    }
}

/// The value of `s` as a machine integer: that of an integer literal whose
/// value fits in an `isize`, and nothing for any other text.
pub open spec fn integer_of(s: Seq<char>) -> Option<int> {
    if is_integer_literal(s) && isize::MIN <= integer_value(s) <= isize::MAX {
        Some(integer_value(s))
    } else {
        None
    }
}

/// `c` is `letter`, or the upper-case form of the lower-case ASCII letter `letter`.
pub open spec fn is_letter(c: char, letter: char) -> bool {
    c == letter || ('A' <= c <= 'Z' && c as int + 32 == letter as int)
}

/// `s` spells the lower-case word `word`, in any mix of upper and lower case.
pub open spec fn spells(s: Seq<char>, word: Seq<char>) -> bool {
    &&& s.len() == word.len()
    &&& forall|i: int| 0 <= i < s.len() ==> is_letter(#[trigger] s[i], word[i])
}

/// `Digit+ '.' Digit*` or `Digit* '.' Digit+`, the point being at `point`:
/// digits before the point and digits after it, and at least one digit in
/// all.
pub open spec fn is_pointed_mantissa(s: Seq<char>, point: int) -> bool {
    &&& 0 <= point < s.len()
    &&& s[point] == '.'
    &&& all_digits(s.take(point))
    &&& all_digits(s.skip(point + 1))
    &&& s.len() > 1
}

/// `Digit+ | Digit+ '.' Digit* | Digit* '.' Digit+`: what stands before the
/// exponent of a number.
pub open spec fn is_mantissa(s: Seq<char>) -> bool {
    ||| s.len() > 0 && all_digits(s)
    ||| exists|point: int| is_pointed_mantissa(s, point)
}

/// `Exp`: the letter `e`, an optional sign and at least one digit.
pub open spec fn is_exponent(s: Seq<char>) -> bool {
    &&& s.len() > 0
    &&& s[0] == 'e' || s[0] == 'E'
    &&& unsigned_part(s.skip(1)).len() > 0
    &&& all_digits(unsigned_part(s.skip(1)))
}

/// A mantissa up to `split`, and an exponent from there on.
pub open spec fn is_number_with_exponent(s: Seq<char>, split: int) -> bool {
    &&& 0 < split < s.len()
    &&& is_mantissa(s.take(split))
    &&& is_exponent(s.skip(split))
}

/// `Number`: a mantissa, and after it an exponent or nothing.
pub open spec fn is_decimal_number(s: Seq<char>) -> bool {
    ||| is_mantissa(s)
    ||| exists|split: int| is_number_with_exponent(s, split)
}

/// `Float`: an optional sign, and then a number or one of the words for
/// infinity and not-a-number.
pub open spec fn is_float_literal(s: Seq<char>) -> bool {
    let body = unsigned_part(s);
    ||| spells(body, "inf"@)
    ||| spells(body, "infinity"@)
    ||| spells(body, "nan"@)
    ||| is_decimal_number(body)
}

/// Adding a digit to the end of a run multiplies its value by ten and adds the digit.
proof fn lemma_decimal_value_push(s: Seq<char>, n: int)
    requires
        0 <= n < s.len(),
    ensures
        decimal_value(s.take(n + 1)) == decimal_value(s.take(n)) * 10 + digit_value(s[n]),
{
    assert(s.take(n + 1).drop_last() == s.take(n));
}

/// A run of digits is worth at least as much as any run it begins with.
proof fn lemma_decimal_value_grows(s: Seq<char>, n: int)
    requires
        0 <= n <= s.len(),
    ensures
        decimal_value(s.take(n)) <= decimal_value(s),
    decreases s.len() - n,
{
    if n < s.len() {
        lemma_decimal_value_push(s, n);
        lemma_decimal_value_grows(s, n + 1);
    } else {
        assert(s.take(n) == s);
    }
}

/// Reads `s` as an integer literal.
///
/// Returns the value where `s` is an optional sign followed by at least one
/// decimal digit and the value fits in an `isize`; returns `None` for every
/// other text.
pub fn parse_integer(s: &Vec<char>) -> (r: Option<isize>)
    ensures
        match r {
            Some(v) => integer_of(s@) == Some(v as int),
            None => integer_of(s@) is None,
        },
{
    let n = s.len();
    let negative = n > 0 && s[0] == '-';
    let start: usize = if n > 0 && (s[0] == '+' || s[0] == '-') {
        1
    } else {
        0
    };
    if start == n {
        return None;
    }
    let ghost digits = unsigned_part(s@);
    let limit: u128 = isize::MAX as u128 + 1;
    let mut acc: u128 = 0;
    let mut i: usize = start;
    while i < n
        invariant
            start <= i <= n,
            n == s.len(),
            digits == s@.skip(start as int),
            digits == unsigned_part(s@),
            all_digits(digits.take(i - start)),
            acc == decimal_value(digits.take(i - start)),
            acc <= limit,
            limit == isize::MAX + 1,
        decreases n - i,
    {
        let c = s[i];
        if !(c >= '0' && c <= '9') {
            assert(!is_digit(digits[i - start]));
            return None;
        }
        let d = (c as u32 - '0' as u32) as u128;
        proof {
            lemma_decimal_value_push(digits, i - start);
            assert forall|k: int| 0 <= k < i + 1 - start implies is_digit(
                #[trigger] digits.take(i + 1 - start)[k],
            ) by {
                if k < i - start {
                    assert(digits.take(i - start)[k] == digits[k]);
                }
            }
        }
        acc = acc * 10 + d;
        if acc > limit {
            proof {
                lemma_decimal_value_grows(digits, i + 1 - start);
            }
            return None;
        }
        i += 1;
    }
    assert(digits.take(n - start) == digits);
    if negative {
        Some((0 - acc as i128) as isize)
    } else if acc < limit {
        Some(acc as isize)
    } else {
        None
    }
}

/// How many decimal digits `s` begins with.
spec fn digit_run(s: Seq<char>) -> nat
    decreases s.len(),
{
    if s.len() > 0 && is_digit(s[0]) {
        1 + digit_run(s.skip(1))
    } else {
        0
    }
}

/// Nothing at all, or an exponent.
spec fn is_optional_exponent(s: Seq<char>) -> bool {
    s.len() == 0 || is_exponent(s)
}

/// What reading `s` from left to right finds: a run of digits, perhaps a
/// point and another run of digits, at least one digit in the two runs, and
/// then an exponent or nothing.
spec fn reads_as_number(s: Seq<char>) -> bool {
    let whole = digit_run(s);
    let rest = s.skip(whole as int);
    if rest.len() > 0 && rest[0] == '.' {
        let fraction = digit_run(rest.skip(1));
        whole + fraction > 0 && is_optional_exponent(rest.skip(1 + fraction as int))
    } else {
        whole > 0 && is_optional_exponent(rest)
    }
}

/// The leading run of digits is made of digits, and what follows it is none.
proof fn lemma_digit_run(s: Seq<char>)
    ensures
        digit_run(s) <= s.len(),
        all_digits(s.take(digit_run(s) as int)),
        digit_run(s) == s.len() || !is_digit(s[digit_run(s) as int]),
    decreases s.len(),
{
    if s.len() > 0 && is_digit(s[0]) {
        let tail = s.skip(1);
        lemma_digit_run(tail);
        let n = digit_run(s) as int;
        assert forall|i: int| 0 <= i < n implies is_digit(#[trigger] s.take(n)[i]) by {
            if i > 0 {
                assert(s.take(n)[i] == tail.take(n - 1)[i - 1]);
            }
        }
        if n < s.len() {
            assert(s[n] == tail[n - 1]);
        }
    }
}

/// Digits up to a place where the text ends or holds no digit are the
/// leading run of digits.
proof fn lemma_digit_run_is(s: Seq<char>, n: int)
    requires
        0 <= n <= s.len(),
        all_digits(s.take(n)),
        n == s.len() || !is_digit(s[n]),
    ensures
        digit_run(s) == n,
    decreases s.len(),
{
    if n > 0 {
        assert(s.take(n)[0] == s[0]);
        let tail = s.skip(1);
        assert forall|i: int| 0 <= i < n - 1 implies is_digit(#[trigger] tail.take(n - 1)[i]) by {
            assert(tail.take(n - 1)[i] == s.take(n)[i + 1]);
        }
        if n < s.len() {
            assert(tail[n - 1] == s[n]);
        }
        lemma_digit_run_is(tail, n - 1);
    }
}

/// A mantissa that ends where the text ends or an exponent begins is what
/// reading from left to right finds.
proof fn lemma_mantissa_is_read(s: Seq<char>, end: int)
    requires
        0 <= end <= s.len(),
        is_mantissa(s.take(end)),
        is_optional_exponent(s.skip(end)),
    ensures
        reads_as_number(s),
{
    let mantissa = s.take(end);
    if end < s.len() {
        assert(s.skip(end)[0] == s[end]);
    }
    if mantissa.len() > 0 && all_digits(mantissa) {
        lemma_digit_run_is(s, end);
    } else {
        let point = choose|point: int| is_pointed_mantissa(mantissa, point);
        assert(mantissa.take(point) == s.take(point));
        assert(mantissa[point] == s[point]);
        lemma_digit_run_is(s, point);
        let rest = s.skip(point);
        assert(rest[0] == s[point]);
        let after = rest.skip(1);
        let fraction = end - point - 1;
        assert(after.take(fraction) == mantissa.skip(point + 1));
        if fraction < after.len() {
            assert(after[fraction] == s[end]);
        }
        lemma_digit_run_is(after, fraction);
        assert(rest.skip(1 + fraction) == s.skip(end));
    }
}

/// Reading from left to right decides whether a text is a number.
proof fn lemma_number_is_read(s: Seq<char>)
    ensures
        is_decimal_number(s) == reads_as_number(s),
{
    if is_mantissa(s) {
        assert(s.take(s.len() as int) == s);
        assert(s.skip(s.len() as int).len() == 0);
        lemma_mantissa_is_read(s, s.len() as int);
    } else if is_decimal_number(s) {
        let split = choose|split: int| is_number_with_exponent(s, split);
        lemma_mantissa_is_read(s, split);
    }
    if reads_as_number(s) {
        let whole = digit_run(s) as int;
        let rest = s.skip(whole);
        lemma_digit_run(s);
        if rest.len() > 0 && rest[0] == '.' {
            let after = rest.skip(1);
            let fraction = digit_run(after) as int;
            lemma_digit_run(after);
            let end = whole + 1 + fraction;
            let mantissa = s.take(end);
            assert(rest.skip(1 + fraction) == s.skip(end));
            assert(mantissa[whole] == rest[0]);
            assert(mantissa.take(whole) == s.take(whole));
            assert(mantissa.skip(whole + 1) == after.take(fraction));
            assert(is_pointed_mantissa(mantissa, whole));
            if end == s.len() {
                assert(mantissa == s);
            } else {
                assert(is_number_with_exponent(s, end));
            }
        } else {
            let mantissa = s.take(whole);
            if whole == s.len() {
                assert(mantissa == s);
            } else {
                assert(is_number_with_exponent(s, whole));
            }
        }
    }
}

/// Counts the decimal digits that `s` holds from position `from` on, up to
/// the first character that is none.
fn count_digits(s: &Vec<char>, from: usize) -> (n: usize)
    requires
        from <= s.len(),
    ensures
        n == digit_run(s@.skip(from as int)),
        from + n <= s.len(),
{
    let mut i: usize = from;
    while i < s.len() && s[i] >= '0' && s[i] <= '9'
        invariant
            from <= i <= s.len(),
            digit_run(s@.skip(from as int)) == (i - from) + digit_run(s@.skip(i as int)),
        decreases s.len() - i,
    {
        assert(s@.skip(i as int).skip(1) == s@.skip(i + 1));
        i += 1;
    }
    i - from
}

/// Tells whether `s[from..]` spells the lower-case word `word`, whatever the
/// case of its letters.
fn spells_word(s: &Vec<char>, from: usize, word: &str) -> (b: bool)
    requires
        from <= s.len(),
    ensures
        b == spells(s@.skip(from as int), word@),
{
    let w = crate::chars::chars_of(word);
    if s.len() - from != w.len() {
        return false;
    }
    let ghost tail = s@.skip(from as int);
    let mut i: usize = 0;
    while i < w.len()
        invariant
            from <= s.len(),
            s.len() - from == w.len(),
            w@ == word@,
            tail == s@.skip(from as int),
            0 <= i <= w.len(),
            forall|k: int| 0 <= k < i ==> is_letter(#[trigger] tail[k], w@[k]),
        decreases w.len() - i,
    {
        let c: char = s[from + i];
        let letter: char = w[i];
        assert(tail[i as int] == c);
        if !(c == letter || (c >= 'A' && c <= 'Z' && letter >= 'a' && letter <= 'z' && c as u32 + 32
            == letter as u32)) {
            return false;
        }
        i += 1;
    }
    true
}

/// Tells whether `s[from..]` is an exponent or nothing at all.
fn is_exponent_at(s: &Vec<char>, from: usize) -> (b: bool)
    requires
        from <= s.len(),
    ensures
        b == is_optional_exponent(s@.skip(from as int)),
{
    let n = s.len();
    if from == n {
        return true;
    }
    let ghost tail = s@.skip(from as int);
    if !(s[from] == 'e' || s[from] == 'E') {
        return false;
    }
    let signed = from + 1 < n && (s[from + 1] == '+' || s[from + 1] == '-');
    let start: usize = if signed {
        from + 2
    } else {
        from + 1
    };
    let ghost digits = unsigned_part(tail.skip(1));
    assert(digits == s@.skip(start as int));
    let run = count_digits(s, start);
    proof {
        lemma_digit_run(digits);
        if start + run == n {
            assert(digits.take(run as int) == digits);
        } else {
            assert(!is_digit(digits[run as int]));
        }
    }
    start < n && start + run == n
}

/// Tells whether `s` is a floating-point literal.
pub fn is_float(s: &Vec<char>) -> (b: bool)
    ensures
        b == is_float_literal(s@),
{
    let n = s.len();
    let start: usize = if n > 0 && (s[0] == '+' || s[0] == '-') {
        1
    } else {
        0
    };
    let ghost body = unsigned_part(s@);
    assert(body == s@.skip(start as int));
    if spells_word(s, start, "inf") || spells_word(s, start, "infinity") || spells_word(
        s,
        start,
        "nan",
    ) {
        return true;
    }
    proof {
        lemma_number_is_read(body);
    }
    let whole = count_digits(s, start);
    let after: usize = start + whole;
    let ghost rest = body.skip(whole as int);
    assert(rest == s@.skip(after as int));
    if after < n && s[after] == '.' {
        let fraction = count_digits(s, after + 1);
        assert(rest.skip(1) == s@.skip(after + 1));
        assert(rest.skip(1 + fraction as int) == s@.skip(after + 1 + fraction));
        let tail_ok = is_exponent_at(s, after + 1 + fraction);
        whole + fraction > 0 && tail_ok
    } else {
        let tail_ok = is_exponent_at(s, after);
        whole > 0 && tail_ok
    }
}

} // verus!
