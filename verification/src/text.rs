//! Characters and decimal digits: the vocabulary the scanners and parsers share.

use vstd::prelude::*;

verus! {

/// `c` is one of the ten ASCII decimal digits.
pub open spec fn is_digit(c: char) -> bool {
    '0' <= c && c <= '9'
}

/// The number a decimal digit stands for.
pub open spec fn digit_value(c: char) -> int {
    c as int - '0' as int
}

/// The `n` characters of `s` from position `i` on exist and are decimal digits.
pub open spec fn digits_at(s: Seq<char>, i: int, n: int) -> bool {
    &&& 0 <= i
    &&& 0 <= n
    &&& i + n <= s.len()
    &&& forall|k: int| i <= k < i + n ==> is_digit(#[trigger] s[k])
}

/// Position `i` of `s` exists and holds `c`.
pub open spec fn char_at(s: Seq<char>, i: int, c: char) -> bool {
    0 <= i < s.len() && s[i] == c
}

/// Ten to the power `n`.
pub open spec fn pow10(n: nat) -> nat
    decreases n,
{
    if n == 0 {
        1
    } else {
        10 * pow10((n - 1) as nat)
    }
}

/// The number that a string of decimal digits denotes, most significant digit first.
/// The empty string denotes zero.
pub open spec fn decimal_value(s: Seq<char>) -> nat
    decreases s.len(),
{
    if s.len() == 0 {
        0
    } else {
        (decimal_value(s.drop_last()) * 10 + digit_value(s.last())) as nat
    }
}

/// Appending a digit multiplies the value by ten and adds the digit.
pub proof fn lemma_decimal_value_push(s: Seq<char>, c: char)
    requires
        is_digit(c),
    ensures
        decimal_value(s.push(c)) == decimal_value(s) * 10 + digit_value(c),
{
    assert(s.push(c).drop_last() =~= s);
}

/// Three zeros at its end multiply a number by a thousand.
pub proof fn lemma_decimal_value_zeros(s: Seq<char>)
    ensures
        decimal_value(s + seq!['0', '0', '0']) == decimal_value(s) * 1000,
{
    let one = s.push('0');
    let two = one.push('0');
    lemma_decimal_value_push(s, '0');
    lemma_decimal_value_push(one, '0');
    lemma_decimal_value_push(two, '0');
    assert(two.push('0') =~= s + seq!['0', '0', '0']);
}

/// Ten to the power `n` grows with `n`.
pub proof fn lemma_pow10_monotonic(m: nat, n: nat)
    requires
        m <= n,
    ensures
        pow10(m) <= pow10(n),
        pow10(m) >= 1,
    decreases n,
{
    if m < n {
        lemma_pow10_monotonic(m, (n - 1) as nat);
    } else if m > 0 {
        lemma_pow10_monotonic((m - 1) as nat, (m - 1) as nat);
    }
}

/// The powers of ten that fractions of a second are scaled by.
pub proof fn lemma_pow10_values()
    ensures
        pow10(0) == 1,
        pow10(3) == 1_000,
        pow10(6) == 1_000_000,
        pow10(9) == 1_000_000_000,
{
    reveal_with_fuel(pow10, 10);
}

/// Whether `c` is a decimal digit.
pub fn is_ascii_digit(c: char) -> (b: bool)
    ensures
        b == is_digit(c),
{
    '0' <= c && c <= '9'
}

/// The number that the digit `c` stands for.
pub fn digit_of(c: char) -> (d: u8)
    requires
        is_digit(c),
    ensures
        d == digit_value(c),
{
    (c as u32 - '0' as u32) as u8
}

/// Whether the `n` characters of `text` from `from` on exist and are all digits.
pub fn has_digits(text: &[char], from: usize, n: usize) -> (b: bool)
    ensures
        b == digits_at(text@, from as int, n as int),
{
    if from > text.len() || n > text.len() - from {
        return false;
    }
    let end: usize = from + n;
    let mut k: usize = from;
    while k < end
        invariant
            from <= k <= end <= text@.len(),
            end == from + n,
            forall|j: int| from <= j < k ==> is_digit(#[trigger] text@[j]),
        decreases end - k,
    {
        if !is_ascii_digit(text[k]) {
            assert(!is_digit(text@[k as int]));
            return false;
        }
        k = k + 1;
    }
    true
}

/// Whether position `at` of `text` exists and holds `c`.
pub fn has_char(text: &[char], at: usize, c: char) -> (b: bool)
    ensures
        b == char_at(text@, at as int, c),
{
    at < text.len() && text[at] == c
}

/// Reads the decimal number written in `text[from..to]`.
pub fn parse_digits(text: &[char], from: usize, to: usize) -> (value: u64)
    requires
        from <= to <= text@.len(),
        to - from <= 19,
        digits_at(text@, from as int, to - from),
    ensures
        value == decimal_value(text@.subrange(from as int, to as int)),
        value < pow10((to - from) as nat),
{
    let mut value: u64 = 0;
    let mut k: usize = from;
    while k < to
        invariant
            from <= k <= to <= text@.len(),
            to - from <= 19,
            digits_at(text@, from as int, to - from),
            value == decimal_value(text@.subrange(from as int, k as int)),
            value < pow10((k - from) as nat),
        decreases to - k,
    {
        let d = digit_of(text[k]);
        proof {
            let read = text@.subrange(from as int, k as int);
            assert(text@.subrange(from as int, k + 1) =~= read.push(text@[k as int]));
            lemma_decimal_value_push(read, text@[k as int]);
            lemma_pow10_monotonic((k + 1 - from) as nat, 19);
            assert(pow10(19) == 10_000_000_000_000_000_000) by {
                reveal_with_fuel(pow10, 20);
            }
        }
        value = value * 10 + d as u64;
        k = k + 1;
    }
    value
}

/// The texts of a list of strings, in its order.
pub open spec fn names_of(list: Seq<String>) -> Seq<Seq<char>> {
    Seq::new(list.len(), |k: int| list[k]@)
}

/// `String::push` appends one character.
///
/// Trusted: std documents this; vstd leaves the method without a contract.
pub assume_specification[ String::push ](s: &mut String, c: char)
    ensures
        final(s)@ == old(s)@.push(c),
;

/// The string that the characters of `text` spell.
pub fn string_of(text: &[char]) -> (out: String)
    ensures
        out@ == text@,
{
    let mut out = String::new();
    let mut k: usize = 0;
    while k < text.len()
        invariant
            k <= text@.len(),
            out@ == text@.take(k as int),
        decreases text@.len() - k,
    {
        out.push(text[k]);
        k = k + 1;
    }
    out
}

/// Appends the characters of `piece` to `out`.
pub fn append_chars(out: &mut Vec<char>, piece: &[char])
    ensures
        final(out)@ == old(out)@ + piece@,
{
    let mut k: usize = 0;
    while k < piece.len()
        invariant
            k <= piece@.len(),
            out@ == old(out)@ + piece@.take(k as int),
        decreases piece@.len() - k,
    {
        out.push(piece[k]);
        k = k + 1;
    }
}

/// The characters of `s`, in order.
pub fn chars_of(s: &str) -> (out: Vec<char>)
    ensures
        out@ == s@,
{
    let mut out: Vec<char> = Vec::new();
    for c in it: s.chars()
        invariant
            out@ == it.seq().take(it.index() as int),
            it.seq() == s@,
    {
        out.push(c);
    }
    out
}

} // verus!
