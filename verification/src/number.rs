//! Numeric literals: which texts are unsigned integers, which are
//! floating-point literals, and how an unsigned integer is written out.

use vstd::prelude::*;

verus! {

/// `c` is one of the ten decimal digits.
pub open spec fn is_digit(c: char) -> bool {
    '0' <= c <= '9'
}

/// The number that a decimal digit stands for.
pub open spec fn digit_value(c: char) -> nat
    recommends
        is_digit(c),
{
    (c as nat - '0' as nat) as nat
}

/// Every character of `s` is a decimal digit.
pub open spec fn all_digits(s: Seq<char>) -> bool {
    forall|i: int| 0 <= i < s.len() ==> is_digit(#[trigger] s[i])
}

/// The number written by a run of decimal digits, most significant first.
pub open spec fn decimal_value(s: Seq<char>) -> nat
    decreases s.len(),
{
    if s.len() == 0 {
        0
    } else {
        10 * decimal_value(s.drop_last()) + digit_value(s.last())
    }
}

/// `s` without a leading plus sign, if it has one.
pub open spec fn without_plus(s: Seq<char>) -> Seq<char> {
    if s.len() > 0 && s[0] == '+' {
        s.skip(1)
    } else {
        s
    }
}

/// The unsigned integer that `s` denotes, if any: an optional `+` followed
/// by one or more decimal digits, whose value fits the machine word.
/// Anything else, including surrounding blanks, an empty digit run or a
/// value that does not fit, denotes nothing.
pub open spec fn unsigned_of(s: Seq<char>) -> Option<nat> {
    let digits = without_plus(s);
    if digits.len() > 0 && all_digits(digits) && decimal_value(digits) <= usize::MAX {
        Some(decimal_value(digits))
    } else {
        None
    }
}

/// A digit run is worth at least as much as any of its prefixes.
pub proof fn lemma_decimal_value_prefix(s: Seq<char>, n: int)
    requires
        0 <= n <= s.len(),
    ensures
        decimal_value(s.take(n)) <= decimal_value(s),
    decreases s.len(),
{
    if n == s.len() {
        assert(s.take(n) =~= s);
    } else {
        assert(s.drop_last().take(n) =~= s.take(n));
        lemma_decimal_value_prefix(s.drop_last(), n);
    }
}

/// Reads `text` as an unsigned integer.
pub fn parse_unsigned(text: &Vec<char>) -> (r: Option<usize>)
    ensures
        match unsigned_of(text@) {
            Some(n) => r == Some(n as usize),
            None => r is None,
        },
{
    let n = text.len();
    let first: usize = if n > 0 && text[0] == '+' {
        1
    } else {
        0
    };
    if first == n {
        return None;
    }
    let ghost digits = without_plus(text@);
    let mut value: usize = 0;
    let mut i: usize = first;
    while i < n
        invariant
            first <= i <= n,
            n == text.len(),
            first <= 1,
            digits == text@.skip(first as int),
            digits == without_plus(text@),
            all_digits(digits.take(i - first)),
            value == decimal_value(digits.take(i - first)),
        decreases n - i,
    {
        let c = text[i];
        if c < '0' || c > '9' {
            assert(!is_digit(digits[i - first]));
            return None;
        }
        let d: usize = (c as u8 - '0' as u8) as usize;
        let ghost next = digits.take(i - first + 1);
        assert(next.drop_last() =~= digits.take(i - first));
        assert(next.last() == c);
        assert(decimal_value(next) == 10 * value + d);
        if value > (usize::MAX - d) / 10 {
            proof {
                lemma_decimal_value_prefix(digits, i - first + 1);
            }
            return None;
        }
        value = value * 10 + d;
        i += 1;
    }
    assert(digits.take(n - first) =~= digits);
    Some(value)
}

/// The decimal digit that stands for `d`.
pub open spec fn digit_char(d: nat) -> char
    recommends
        d < 10,
{
    ('0' as nat + d) as char
}

/// The shortest decimal writing of `n`: no sign, no leading zero but for
/// zero itself.
pub open spec fn decimal_text(n: nat) -> Seq<char>
    decreases n,
{
    if n < 10 {
        seq![digit_char(n)]
    } else {
        decimal_text(n / 10).push(digit_char(n % 10))
    }
}

/// The digits that stand before the last one that was split off: none
/// once nothing is left.
spec fn leading_text(rest: nat) -> Seq<char> {
    if rest == 0 {
        Seq::empty()
    } else {
        decimal_text(rest)
    }
}

proof fn lemma_leading_text_step(rest: nat)
    requires
        rest > 0,
    ensures
        leading_text(rest) == leading_text(rest / 10).push(digit_char(rest % 10)),
{
    if rest < 10 {
        assert(leading_text(rest / 10).push(digit_char(rest % 10)) =~= seq![digit_char(rest)]);
    }
}

/// Writes `n` in decimal.
pub fn render_unsigned(n: usize) -> (s: String)
    ensures
        s@ == decimal_text(n as nat),
{
    let mut low_first: Vec<char> = Vec::new();
    low_first.push(('0' as u8 + (n % 10) as u8) as char);
    let mut rest: usize = n / 10;
    assert(decimal_text(n as nat) =~= leading_text(rest as nat) + low_first@.reverse());
    while rest > 0
        invariant
            low_first.len() > 0,
            decimal_text(n as nat) == leading_text(rest as nat) + low_first@.reverse(),
        decreases rest,
    {
        proof {
            lemma_leading_text_step(rest as nat);
        }
        let ghost before = low_first@;
        let c = ('0' as u8 + (rest % 10) as u8) as char;
        low_first.push(c);
        assert(low_first@.reverse() =~= seq![c] + before.reverse());
        assert(leading_text((rest / 10) as nat).push(c) + before.reverse() =~= leading_text(
            (rest / 10) as nat,
        ) + low_first@.reverse());
        rest = rest / 10;
    }
    let mut s = String::new();
    let mut left: usize = low_first.len();
    while left > 0
        invariant
            left <= low_first.len(),
            s@.len() == low_first.len() - left,
            forall|t: int| 0 <= t < s@.len() ==> s@[t] == low_first@[low_first.len() - 1 - t],
        decreases left,
    {
        left -= 1;
        crate::text::push_char(&mut s, low_first[left]);
    }
    assert(s@ =~= low_first@.reverse());
    assert(leading_text(0) + low_first@.reverse() =~= low_first@.reverse());
    s
}

/// `c` is a plus or a minus sign.
pub open spec fn is_sign(c: char) -> bool {
    c == '+' || c == '-'
}

/// `c` with an upper-case Latin letter turned into its lower-case form.
pub open spec fn folded(c: char) -> char {
    if 'A' <= c <= 'Z' {
        (c as nat + 32) as char
    } else {
        c
    }
}

/// From index `from` on, `s` spells `word`, letter case aside, and then ends.
pub open spec fn spells(s: Seq<char>, from: int, word: Seq<char>) -> bool {
    &&& s.len() == from + word.len()
    &&& forall|i: int| 0 <= i < word.len() ==> folded(#[trigger] s[from + i]) == word[i]
}

/// The index at which the run of decimal digits that begins at `i` ends.
pub open spec fn digits_end(s: Seq<char>, i: int) -> int
    decreases s.len() - i,
{
    if 0 <= i < s.len() && is_digit(s[i]) {
        digits_end(s, i + 1)
    } else {
        i
    }
}

/// From index `q` on, `s` is an exponent: the letter `e` in either case, an
/// optional sign, and one or more digits up to the end.
pub open spec fn is_exponent(s: Seq<char>, q: int) -> bool {
    let r = if q + 1 < s.len() && is_sign(s[q + 1]) {
        q + 2
    } else {
        q + 1
    };
    &&& 0 <= q < s.len()
    &&& folded(s[q]) == 'e'
    &&& r < s.len()
    &&& digits_end(s, r) == s.len()
}

/// From index `from` on, `s` is a decimal number: digits with at most one
/// point among them, at least one digit before or after the point, and
/// possibly an exponent.
pub open spec fn is_decimal_number(s: Seq<char>, from: int) -> bool {
    let p = digits_end(s, from);
    let q = if p < s.len() && s[p] == '.' {
        digits_end(s, p + 1)
    } else {
        p
    };
    &&& p > from || q > p + 1
    &&& q == s.len() || is_exponent(s, q)
}

/// From index `from` on, `s` names infinity or not-a-number.
pub open spec fn is_special_number(s: Seq<char>, from: int) -> bool {
    ||| spells(s, from, seq!['i', 'n', 'f'])
    ||| spells(s, from, seq!['i', 'n', 'f', 'i', 'n', 'i', 't', 'y'])
    ||| spells(s, from, seq!['n', 'a', 'n'])
}

/// `s` is a floating-point literal: an optional sign, then either a decimal
/// number or, in any letter case, one of `inf`, `infinity` and `nan`.
pub open spec fn is_float_literal(s: Seq<char>) -> bool {
    let from: int = if s.len() > 0 && is_sign(s[0]) {
        1
    } else {
        0
    };
    is_special_number(s, from) || is_decimal_number(s, from)
}

fn fold_case(c: char) -> (r: char)
    ensures
        r == folded(c),
{
    if c >= 'A' && c <= 'Z' {
        (c as u8 + 32) as char
    } else {
        c
    }
}

fn spells_word(text: &Vec<char>, from: usize, word: &Vec<char>) -> (r: bool)
    requires
        from <= text.len(),
    ensures
        r == spells(text@, from as int, word@),
{
    if text.len() - from != word.len() {
        return false;
    }
    let mut i: usize = 0;
    while i < word.len()
        invariant
            i <= word.len(),
            from <= text.len(),
            text.len() - from == word.len(),
            forall|j: int| 0 <= j < i ==> folded(#[trigger] text@[from + j]) == word@[j],
        decreases word.len() - i,
    {
        if fold_case(text[from + i]) != word[i] {
            return false;
        }
        i += 1;
    }
    true
}

fn skip_digits(text: &Vec<char>, from: usize) -> (r: usize)
    requires
        from <= text.len(),
    ensures
        from <= r <= text.len(),
        r == digits_end(text@, from as int),
{
    let mut i: usize = from;
    while i < text.len() && text[i] >= '0' && text[i] <= '9'
        invariant
            from <= i <= text.len(),
            digits_end(text@, from as int) == digits_end(text@, i as int),
        decreases text.len() - i,
    {
        i += 1;
    }
    i
}

fn exponent_at(text: &Vec<char>, q: usize) -> (r: bool)
    requires
        q < text.len(),
    ensures
        r == is_exponent(text@, q as int),
{
    if fold_case(text[q]) != 'e' {
        return false;
    }
    let r: usize = if q + 1 < text.len() && (text[q + 1] == '+' || text[q + 1] == '-') {
        q + 2
    } else {
        q + 1
    };
    if r >= text.len() {
        return false;
    }
    skip_digits(text, r) == text.len()
}

/// Tells whether `text` is a floating-point literal.
pub fn is_float_text(text: &Vec<char>) -> (r: bool)
    ensures
        r == is_float_literal(text@),
{
    let n = text.len();
    let from: usize = if n > 0 && (text[0] == '+' || text[0] == '-') {
        1
    } else {
        0
    };
    if spells_word(text, from, &vec!['i', 'n', 'f']) {
        return true;
    }
    if spells_word(text, from, &vec!['i', 'n', 'f', 'i', 'n', 'i', 't', 'y']) {
        return true;
    }
    if spells_word(text, from, &vec!['n', 'a', 'n']) {
        return true;
    }
    let p = skip_digits(text, from);
    let q: usize = if p < n && text[p] == '.' {
        skip_digits(text, p + 1)
    } else {
        p
    };
    if !(p > from || q > p + 1) {
        return false;
    }
    q == n || exponent_at(text, q)
}

} // verus!
