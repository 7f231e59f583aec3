//! The scanner: it finds, in a line of text, what has the shape of a timestamp. It does not
//! ask whether the day or the hour exists.

use crate::text::{char_at, digits_at, has_char, has_digits, is_digit};
use vstd::prelude::*;

verus! {

/// The characters that a date and a time of day take: `YYYY-MM-DD`, a separator, `HH:MM:SS`.
pub const DATETIME_WIDTH: usize = 19;

/// The date and time of day of a timestamp stand at position `i` of `s`: four digits, `-`,
/// two digits, `-`, two digits, a space or `T`, two digits, `:`, two digits, `:`, two digits.
pub open spec fn datetime_at(s: Seq<char>, i: int) -> bool {
    &&& digits_at(s, i, 4)
    &&& char_at(s, i + 4, '-')
    &&& digits_at(s, i + 5, 2)
    &&& char_at(s, i + 7, '-')
    &&& digits_at(s, i + 8, 2)
    &&& (char_at(s, i + 10, ' ') || char_at(s, i + 10, 'T'))
    &&& digits_at(s, i + 11, 2)
    &&& char_at(s, i + 13, ':')
    &&& digits_at(s, i + 14, 2)
    &&& char_at(s, i + 16, ':')
    &&& digits_at(s, i + 17, 2)
}

/// The numbers of digits that a fraction of a second may have; none means no fraction.
pub open spec fn is_fraction_count(digits: int) -> bool {
    digits == 0 || digits == 3 || digits == 6 || digits == 9
}

/// The characters that a fraction of `digits` digits takes, its point included.
pub open spec fn fraction_width(digits: int) -> int {
    if digits == 0 {
        0
    } else {
        digits + 1
    }
}

/// A fraction of `digits` digits stands at position `j` of `s`: a point and the digits, or,
/// for no digits, nothing.
pub open spec fn fraction_at(s: Seq<char>, j: int, digits: int) -> bool {
    digits == 0 || (char_at(s, j, '.') && digits_at(s, j + 1, digits))
}

/// A sign stands at position `z` of `s`.
pub open spec fn sign_at(s: Seq<char>, z: int) -> bool {
    char_at(s, z, '+') || char_at(s, z, '-')
}

/// A zone marker of `width` characters stands at position `z` of `s`: `Z`, or a sign and
/// four digits, or a sign, two digits, `:` and two digits.
pub open spec fn zone_at(s: Seq<char>, z: int, width: int) -> bool {
    ||| width == 1 && char_at(s, z, 'Z')
    ||| width == 5 && sign_at(s, z) && digits_at(s, z + 1, 4)
    ||| width == 6 && sign_at(s, z) && digits_at(s, z + 1, 2) && char_at(s, z + 3, ':')
        && digits_at(s, z + 4, 2)
}

/// A timestamp whose fraction has `digits` digits and whose zone marker has `width`
/// characters stands at position `i` of `s`.
pub open spec fn timestamp_at(s: Seq<char>, i: int, digits: int, width: int) -> bool {
    &&& datetime_at(s, i)
    &&& is_fraction_count(digits)
    &&& fraction_at(s, i + DATETIME_WIDTH, digits)
    &&& zone_at(s, i + DATETIME_WIDTH + fraction_width(digits), width)
}

/// The characters that such a timestamp takes.
pub open spec fn timestamp_width(digits: int, width: int) -> int {
    DATETIME_WIDTH + fraction_width(digits) + width
}

/// Some timestamp stands at position `i` of `s`.
pub open spec fn starts_timestamp(s: Seq<char>, i: int) -> bool {
    exists|digits: int, width: int| timestamp_at(s, i, digits, width)
}

/// The length of the timestamp at position `i` of `s`, if one stands there.
pub open spec fn timestamp_len_at(s: Seq<char>, i: int) -> Option<int> {
    if starts_timestamp(s, i) {
        let (digits, width) = choose|digits: int, width: int| timestamp_at(s, i, digits, width);
        Some(timestamp_width(digits, width))
    } else {
        None
    }
}

/// The whole of `t` is one timestamp.
pub open spec fn is_timestamp(t: Seq<char>) -> bool {
    timestamp_len_at(t, 0) == Some(t.len() as int)
}

/// At one position at most one timestamp stands: the text decides how many digits the
/// fraction has and how wide the zone marker is.
pub proof fn lemma_timestamp_unique(s: Seq<char>, i: int, d1: int, w1: int, d2: int, w2: int)
    requires
        timestamp_at(s, i, d1, w1),
        timestamp_at(s, i, d2, w2),
    ensures
        d1 == d2,
        w1 == w2,
{
    let j = i + DATETIME_WIDTH;
    if d1 < d2 {
        // where the shorter reading has its zone marker, the longer has a point or a digit
        let z = j + fraction_width(d1);
        if d1 > 0 {
            assert(is_digit(s[z]));
        }
    } else if d2 < d1 {
        let z = j + fraction_width(d2);
        if d2 > 0 {
            assert(is_digit(s[z]));
        }
    } else {
        let z = j + fraction_width(d1);
        if w1 == 5 && w2 == 6 || w1 == 6 && w2 == 5 {
            assert(is_digit(s[z + 3]));
        }
    }
}

/// A character that can stand in a timestamp: a digit, or one of `-`, `:`, `.`, the space,
/// `T`, `Z` and `+`.
pub open spec fn is_timestamp_char(c: char) -> bool {
    is_digit(c) || c == '-' || c == ':' || c == '.' || c == ' ' || c == 'T' || c == 'Z' || c == '+'
}

/// A timestamp begins with a digit, ends with a digit or `Z`, and holds no character but
/// those that can stand in one.
#[verifier::rlimit(60)]
pub proof fn lemma_timestamp_chars(s: Seq<char>, i: int, digits: int, width: int)
    requires
        timestamp_at(s, i, digits, width),
    ensures
        0 <= i,
        i + timestamp_width(digits, width) <= s.len(),
        is_digit(s[i]),
        is_digit(s[i + timestamp_width(digits, width) - 1]) || s[i + timestamp_width(
            digits,
            width,
        ) - 1] == 'Z',
        forall|j: int|
            i <= j < i + timestamp_width(digits, width) ==> is_timestamp_char(#[trigger] s[j]),
{
    let f = i + DATETIME_WIDTH;
    let z = f + fraction_width(digits);
    assert forall|j: int| i <= j < i + timestamp_width(digits, width) implies is_timestamp_char(
        #[trigger] s[j],
    ) by {
        if j < f {
            if j != i + 4 && j != i + 7 && j != i + 10 && j != i + 13 && j != i + 16 {
                assert(is_digit(s[j]));
            }
        } else if j < z {
            if j > f {
                assert(is_digit(s[j]));
            }
        } else if j > z {
            if !(width == 6 && j == z + 3) {
                assert(is_digit(s[j]));
            }
        }
    }
    assert(is_digit(s[i]));
    if width > 1 {
        assert(is_digit(s[z + width - 1]));
    }
}

/// The timestamp that stands at a position decides the length found there.
pub proof fn lemma_timestamp_len(s: Seq<char>, i: int, digits: int, width: int)
    requires
        timestamp_at(s, i, digits, width),
    ensures
        timestamp_len_at(s, i) == Some(timestamp_width(digits, width)),
{
    let (d, w) = choose|d: int, w: int| timestamp_at(s, i, d, w);
    lemma_timestamp_unique(s, i, d, w, digits, width);
}

/// A timestamp has at least 20 characters and ends inside the text.
pub proof fn lemma_timestamp_len_bounds(s: Seq<char>, i: int)
    requires
        starts_timestamp(s, i),
    ensures
        timestamp_len_at(s, i) is Some,
        i + 20 <= i + timestamp_len_at(s, i)->Some_0 <= s.len(),
        0 <= i,
{
}

/// Moving along a text moves the shapes found in it: what stands at position `j + k` of
/// `s` stands at position `k` of `s` without its first `j` characters.
#[verifier::rlimit(60)]
pub proof fn lemma_timestamp_at_skip(s: Seq<char>, j: int, k: int, digits: int, width: int)
    requires
        0 <= j <= s.len(),
        0 <= k,
    ensures
        timestamp_at(s, j + k, digits, width) == timestamp_at(s.skip(j), k, digits, width),
{
    let u = s.skip(j);
    assert forall|p: int, n: int| 0 <= p implies digits_at(s, j + p, n) == digits_at(u, p, n) by {
        if digits_at(s, j + p, n) {
            assert forall|q: int| p <= q < p + n implies is_digit(#[trigger] u[q]) by {
                assert(u[q] == s[j + q]);
            }
        }
        if digits_at(u, p, n) {
            assert forall|q: int| j + p <= q < j + p + n implies is_digit(#[trigger] s[q]) by {
                assert(s[q] == u[q - j]);
            }
        }
    }
    assert forall|p: int, c: char| 0 <= p implies char_at(s, j + p, c) == char_at(u, p, c) by {
        if 0 <= p < u.len() {
            assert(u[p] == s[j + p]);
        }
    }
    assert(datetime_at(s, j + k) == datetime_at(u, k)) by {
        assert(digits_at(s, j + k, 4) == digits_at(u, k, 4));
        assert(digits_at(s, j + (k + 5), 2) == digits_at(u, k + 5, 2));
        assert(digits_at(s, j + (k + 8), 2) == digits_at(u, k + 8, 2));
        assert(digits_at(s, j + (k + 11), 2) == digits_at(u, k + 11, 2));
        assert(digits_at(s, j + (k + 14), 2) == digits_at(u, k + 14, 2));
        assert(digits_at(s, j + (k + 17), 2) == digits_at(u, k + 17, 2));
        assert(char_at(s, j + (k + 4), '-') == char_at(u, k + 4, '-'));
        assert(char_at(s, j + (k + 7), '-') == char_at(u, k + 7, '-'));
        assert(char_at(s, j + (k + 10), ' ') == char_at(u, k + 10, ' '));
        assert(char_at(s, j + (k + 10), 'T') == char_at(u, k + 10, 'T'));
        assert(char_at(s, j + (k + 13), ':') == char_at(u, k + 13, ':'));
        assert(char_at(s, j + (k + 16), ':') == char_at(u, k + 16, ':'));
    }
    let f = k + 19;
    assert(fraction_at(s, j + f, digits) == fraction_at(u, f, digits)) by {
        assert(char_at(s, j + f, '.') == char_at(u, f, '.'));
        assert(digits_at(s, j + (f + 1), digits) == digits_at(u, f + 1, digits));
    }
    if digits == 0 || digits == 3 || digits == 6 || digits == 9 {
        let z = f + if digits == 0 {
            0
        } else {
            digits + 1
        };
        assert(zone_at(s, j + z, width) == zone_at(u, z, width)) by {
            assert(char_at(s, j + z, 'Z') == char_at(u, z, 'Z'));
            assert(char_at(s, j + z, '+') == char_at(u, z, '+'));
            assert(char_at(s, j + z, '-') == char_at(u, z, '-'));
            assert(char_at(s, j + (z + 3), ':') == char_at(u, z + 3, ':'));
            assert(digits_at(s, j + (z + 1), 4) == digits_at(u, z + 1, 4));
            assert(digits_at(s, j + (z + 1), 2) == digits_at(u, z + 1, 2));
            assert(digits_at(s, j + (z + 4), 2) == digits_at(u, z + 4, 2));
        }
    }
}

/// The timestamp at a position is the timestamp at the start of what begins there.
pub proof fn lemma_timestamp_len_at_skip(s: Seq<char>, j: int, k: int)
    requires
        0 <= j <= s.len(),
        0 <= k,
    ensures
        timestamp_len_at(s, j + k) == timestamp_len_at(s.skip(j), k),
{
    let u = s.skip(j);
    let i = j + k;
    if starts_timestamp(s, i) {
        let (d, w) = choose|d: int, w: int| timestamp_at(s, i, d, w);
        lemma_timestamp_at_skip(s, j, k, d, w);
        let (d2, w2) = choose|d: int, w: int| timestamp_at(u, k, d, w);
        lemma_timestamp_at_skip(s, j, k, d2, w2);
        lemma_timestamp_unique(s, i, d, w, d2, w2);
    } else if starts_timestamp(u, k) {
        let (d2, w2) = choose|d: int, w: int| timestamp_at(u, k, d, w);
        lemma_timestamp_at_skip(s, j, k, d2, w2);
    }
}

/// A timestamp stands in a text where it stands in the first `n` characters of the text,
/// if these hold the whole of it.
#[verifier::rlimit(60)]
pub proof fn lemma_timestamp_at_take(s: Seq<char>, n: int, i: int, digits: int, width: int)
    requires
        0 <= i,
        0 <= digits,
        0 <= width,
        i + timestamp_width(digits, width) <= n <= s.len(),
    ensures
        timestamp_at(s.take(n), i, digits, width) == timestamp_at(s, i, digits, width),
{
    let u = s.take(n);
    assert forall|p: int, m: int| 0 <= p && p + m <= n implies digits_at(u, p, m) == digits_at(
        s,
        p,
        m,
    ) by {
        if digits_at(u, p, m) {
            assert forall|q: int| p <= q < p + m implies is_digit(#[trigger] s[q]) by {
                assert(s[q] == u[q]);
            }
        }
        if digits_at(s, p, m) {
            assert forall|q: int| p <= q < p + m implies is_digit(#[trigger] u[q]) by {
                assert(s[q] == u[q]);
            }
        }
    }
    assert forall|p: int, c: char| 0 <= p < n implies char_at(u, p, c) == char_at(s, p, c) by {
        assert(u[p] == s[p]);
    }
    assert(datetime_at(u, i) == datetime_at(s, i));
    let f = i + 19;
    assert(fraction_at(u, f, digits) == fraction_at(s, f, digits));
    let z = f + if digits == 0 {
        0
    } else {
        digits + 1
    };
    assert(zone_at(u, z, width) == zone_at(s, z, width)) by {
        if width == 1 || width == 5 || width == 6 {
            assert(char_at(u, z, 'Z') == char_at(s, z, 'Z'));
            assert(char_at(u, z, '+') == char_at(s, z, '+'));
            assert(char_at(u, z, '-') == char_at(s, z, '-'));
            if width == 5 {
                assert(digits_at(u, z + 1, 4) == digits_at(s, z + 1, 4));
            }
            if width == 6 {
                assert(digits_at(u, z + 1, 2) == digits_at(s, z + 1, 2));
                assert(char_at(u, z + 3, ':') == char_at(s, z + 3, ':'));
                assert(digits_at(u, z + 4, 2) == digits_at(s, z + 4, 2));
            }
        }
    }
}

/// A text that is a timestamp is found as one wherever it stands in a line.
pub proof fn lemma_embedded_timestamp(line: Seq<char>, at: int, t: Seq<char>)
    requires
        is_timestamp(t),
        0 <= at,
        at + t.len() <= line.len(),
        line.subrange(at, at + t.len()) == t,
    ensures
        timestamp_len_at(line, at) == Some(t.len() as int),
{
    let (d, w) = choose|d: int, w: int| timestamp_at(t, 0, d, w);
    lemma_timestamp_unique(t, 0, d, w, d, w);
    let cut = line.take(at + t.len());
    assert(cut.skip(at) =~= t);
    lemma_timestamp_at_skip(cut, at, 0, d, w);
    lemma_timestamp_at_take(line, at + t.len(), at, d, w);
    let (d2, w2) = choose|d: int, w: int| timestamp_at(line, at, d, w);
    lemma_timestamp_unique(line, at, d, w, d2, w2);
}

/// A timestamp found in a line of text.
#[derive(Clone, Copy, Debug)]
pub struct TimestampMatch {
    /// Where it starts.
    pub start: usize,
    /// Where the text after it starts.
    pub end: usize,
    /// How many digits its fraction of a second has: none, three, six or nine.
    pub fraction_digits: usize,
    /// How many characters its zone marker has: one, five or six.
    pub zone_width: usize,
}

impl TimestampMatch {
    /// The match describes the timestamp that stands at `self.start` in `s`.
    pub open spec fn found_in(&self, s: Seq<char>) -> bool {
        &&& timestamp_at(s, self.start as int, self.fraction_digits as int, self.zone_width as int)
        &&& self.end == self.start + timestamp_width(
            self.fraction_digits as int,
            self.zone_width as int,
        )
    }

    /// The text of the timestamp.
    pub open spec fn text(&self, s: Seq<char>) -> Seq<char> {
        s.subrange(self.start as int, self.end as int)
    }
}

/// What a match says of the text: its timestamp is the only one at that position, and it
/// ends inside the text.
pub proof fn lemma_match_is_the_timestamp(m: TimestampMatch, s: Seq<char>)
    requires
        m.found_in(s),
    ensures
        timestamp_len_at(s, m.start as int) == Some(m.end - m.start),
        m.start + 20 <= m.end <= s.len(),
{
    let i = m.start as int;
    let (d, w) = choose|d: int, w: int| timestamp_at(s, i, d, w);
    lemma_timestamp_unique(s, i, d, w, m.fraction_digits as int, m.zone_width as int);
}

/// Whether the date and the time of day of a timestamp stand at position `start` of
/// `text`, which has that many characters left.
fn has_datetime(text: &[char], start: usize) -> (b: bool)
    requires
        start + DATETIME_WIDTH <= text@.len() <= usize::MAX,
    ensures
        b == datetime_at(text@, start as int),
{
    has_digits(text, start, 4)
        && has_char(text, start + 4, '-')
        && has_digits(text, start + 5, 2)
        && has_char(text, start + 7, '-')
        && has_digits(text, start + 8, 2)
        && (has_char(text, start + 10, ' ') || has_char(text, start + 10, 'T'))
        && has_digits(text, start + 11, 2)
        && has_char(text, start + 13, ':')
        && has_digits(text, start + 14, 2)
        && has_char(text, start + 16, ':')
        && has_digits(text, start + 17, 2)
}

/// Looks for a timestamp at position `start` of `text`.
#[verifier::rlimit(60)]
pub fn match_at(text: &[char], start: usize) -> (found: Option<TimestampMatch>)
    ensures
        match found {
            Some(m) => m.start == start && m.found_in(text@),
            None => !starts_timestamp(text@, start as int),
        },
{
    let n = text.len();
    // the shortest timestamp has 20 characters
    if start > n || n - start < 20 {
        return None;
    }
    if !has_datetime(text, start) {
        return None;
    }
    let point = start + DATETIME_WIDTH;
    let left = n - point;
    let mut digits: usize = 0;
    if text[point] == '.' {
        if left >= 10 && has_digits(text, point + 1, 9) {
            digits = 9;
        } else if left >= 7 && has_digits(text, point + 1, 6) {
            digits = 6;
        } else if left >= 4 && has_digits(text, point + 1, 3) {
            digits = 3;
        } else {
            return None;
        }
    }
    let zone = if digits == 0 {
        point
    } else {
        point + 1 + digits
    };
    let ghost s = text@;
    proof {
        // no other number of digits leaves room for a zone marker
        assert forall|d: int, w: int| d != digits implies !timestamp_at(s, start as int, d, w) by {
            if timestamp_at(s, start as int, d, w) {
                if d < digits {
                    assert(is_digit(s[point + fraction_width(d)]));
                } else if digits > 0 {
                    assert(!digits_at(s, point + 1, d));
                }
            }
        }
    }
    if zone >= n {
        return None;
    }
    let signed = text[zone] == '+' || text[zone] == '-';
    let width: usize = if text[zone] == 'Z' {
        1
    } else if signed && n - zone >= 5 && has_digits(text, zone + 1, 4) {
        5
    } else if signed && n - zone >= 6 && has_digits(text, zone + 1, 2) && text[zone + 3] == ':'
        && has_digits(text, zone + 4, 2) {
        6
    } else {
        return None;
    };
    Some(TimestampMatch { start, end: zone + width, fraction_digits: digits, zone_width: width })
}

/// Where the search for the timestamp of place `k` began: at the start of the text, or
/// where the timestamp before it ends.
pub open spec fn search_start(found: Seq<TimestampMatch>, k: int) -> int {
    if k <= 0 {
        0
    } else {
        found[k - 1].end as int
    }
}

/// `found` is what a scan of `s` from the left finds: each entry describes a timestamp of
/// `s`; each begins at or after the end of the one before; and no timestamp starts between
/// the place where the search for an entry began and the entry, nor after the last.
/// So the entries are the timestamps of `s` that do not overlap, leftmost first.
#[verifier::opaque]
pub open spec fn is_scan(s: Seq<char>, found: Seq<TimestampMatch>) -> bool {
    &&& forall|k: int| 0 <= k < found.len() ==> (#[trigger] found[k]).found_in(s)
    &&& forall|k: int|
        0 <= k < found.len() ==> search_start(found, k) <= (#[trigger] found[k]).start
    &&& forall|k: int, j: int|
        0 <= k < found.len() && search_start(found, k) <= j < (#[trigger] found[k]).start
            ==> !#[trigger] starts_timestamp(s, j)
    &&& forall|j: int|
        search_start(found, found.len() as int) <= j < s.len() ==> !#[trigger] starts_timestamp(
            s,
            j,
        )
}

/// What a scan says of its entry of place `k`: it describes a timestamp, and between the
/// place where the search for it began and its start no timestamp starts.
pub proof fn lemma_scan_entry(s: Seq<char>, found: Seq<TimestampMatch>, k: int)
    requires
        is_scan(s, found),
        0 <= k < found.len(),
    ensures
        found[k].found_in(s),
        0 <= search_start(found, k) <= found[k].start,
        found[k].start + 20 <= found[k].end <= s.len(),
        forall|j: int| search_start(found, k) <= j < found[k].start ==> !starts_timestamp(s, j),
    decreases k,
{
    reveal(is_scan);
    lemma_match_is_the_timestamp(found[k], s);
    if k > 0 {
        lemma_scan_entry(s, found, k - 1);
    }
}

/// What a scan says of the text after its last entry: no timestamp starts there.
pub proof fn lemma_scan_rest(s: Seq<char>, found: Seq<TimestampMatch>)
    requires
        is_scan(s, found),
    ensures
        0 <= search_start(found, found.len() as int) <= s.len(),
        forall|j: int|
            search_start(found, found.len() as int) <= j < s.len() ==> !starts_timestamp(s, j),
{
    reveal(is_scan);
    if found.len() > 0 {
        lemma_scan_entry(s, found, found.len() - 1);
    }
}

/// Finds the timestamps of `text`, from left to right. A timestamp that begins inside one
/// found before is not found.
#[verifier::rlimit(60)]
pub fn find_timestamps(text: &[char]) -> (found: Vec<TimestampMatch>)
    ensures
        is_scan(text@, found@),
{
    let mut found: Vec<TimestampMatch> = Vec::new();
    let mut i: usize = 0;
    while i < text.len()
        invariant
            i <= text@.len(),
            search_start(found@, found@.len() as int) <= i,
            forall|k: int| 0 <= k < found@.len() ==> (#[trigger] found@[k]).found_in(text@),
            forall|k: int|
                0 <= k < found@.len() ==> search_start(found@, k) <= (#[trigger] found@[k]).start,
            forall|k: int, j: int|
                0 <= k < found@.len() && search_start(found@, k) <= j < (
                #[trigger] found@[k]).start ==> !#[trigger] starts_timestamp(text@, j),
            forall|j: int|
                search_start(found@, found@.len() as int) <= j < i ==> !#[trigger] starts_timestamp(
                    text@,
                    j,
                ),
        decreases text@.len() - i,
    {
        match match_at(text, i) {
            Some(m) => {
                proof {
                    lemma_match_is_the_timestamp(m, text@);
                }
                let ghost before = found@;
                found.push(m);
                assert forall|k: int| 0 <= k < found@.len() implies search_start(found@, k)
                    == search_start(before, k) by {}
                i = m.end;
            },
            None => {
                i = i + 1;
            },
        }
    }
    proof {
        reveal(is_scan);
    }
    found
}

} // verus!
