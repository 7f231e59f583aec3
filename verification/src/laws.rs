//! What holds of every rewrite, proved from the definitions.

use crate::instant::{fraction_nanos, NANOS_PER_SECOND};
use crate::rizzy::{
    conversion, digit_run, epoch_replacement, epochs_rewritten, epochs_rewritten_from,
    lemma_digit_run, lemma_stretch_without_timestamp, replacement, rewritten,
    timestamps_rewritten, timestamps_rewritten_from, OutputSpec, Rizzy, EPOCH_NANOS_WIDTH,
};
use crate::scanner::{
    datetime_at, fraction_at, is_timestamp, is_timestamp_char, lemma_embedded_timestamp,
    lemma_timestamp_at_skip, lemma_timestamp_at_take, lemma_timestamp_chars,
    lemma_timestamp_len, lemma_timestamp_len_at_skip, lemma_timestamp_len_bounds,
    starts_timestamp, timestamp_at, timestamp_len_at, timestamp_width, zone_at,
};
use crate::text::{
    decimal_value, digits_at, is_digit, lemma_decimal_value_zeros, lemma_pow10_values, pow10,
};
use crate::timestamp::{field, lemma_is_timestamp, moment_of, zone_start};
use vstd::prelude::*;

verus! {

/// The rewrite of a line is a function of the configuration and the line: rewriters that
/// are configured alike make the same text of it, every time.
pub proof fn lemma_rewrite_is_deterministic(a: Rizzy, b: Rizzy, line: Seq<char>)
    requires
        a@ == b@,
    ensures
        rewritten(a@, line) == rewritten(b@, line),
{
}

/// A line in which no timestamp starts stays as it is.
pub proof fn lemma_line_without_timestamp(config: OutputSpec, s: Seq<char>)
    requires
        forall|j: int| 0 <= j < s.len() ==> !starts_timestamp(s, j),
    ensures
        timestamps_rewritten(config, s) == s,
{
    lemma_stretch_without_timestamp(config, s, 0, s.len() as int);
    assert(s.subrange(0, s.len() as int) + Seq::<char>::empty() =~= s);
}

/// The first timestamp of a line: what stands before it is copied, the timestamp is
/// replaced by a text that depends on nothing but the timestamp and the configuration, and
/// what follows is rewritten in turn. So the timestamps of a line keep their order.
pub proof fn lemma_first_timestamp(config: OutputSpec, s: Seq<char>, i: int, n: int)
    requires
        0 <= i,
        timestamp_len_at(s, i) == Some(n),
        forall|j: int| 0 <= j < i ==> !starts_timestamp(s, j),
    ensures
        i + n <= s.len(),
        timestamps_rewritten(config, s) == s.take(i) + replacement(config, s.subrange(i, i + n))
            + timestamps_rewritten_from(config, s, i + n),
{
    lemma_timestamp_len_bounds(s, i);
    lemma_stretch_without_timestamp(config, s, 0, i);
    assert(s.subrange(0, i) =~= s.take(i));
}

/// What follows a position is rewritten as if the line began there: nothing that stands
/// before it has a say. So each timestamp is converted by itself.
#[verifier::rlimit(60)]
pub proof fn lemma_rest_is_rewritten_alone(config: OutputSpec, s: Seq<char>, j: int, k: int)
    requires
        0 <= j <= s.len(),
        0 <= k,
    ensures
        timestamps_rewritten_from(config, s, j + k) == timestamps_rewritten_from(
            config,
            s.skip(j),
            k,
        ),
    decreases s.len() - j - k,
{
    let u = s.skip(j);
    if j + k < s.len() {
        lemma_timestamp_len_at_skip(s, j, k);
        match timestamp_len_at(s, j + k) {
            Some(n) => {
                lemma_timestamp_len_bounds(s, j + k);
                lemma_rest_is_rewritten_alone(config, s, j, k + n);
                assert(s.subrange(j + k, j + k + n) =~= u.subrange(k, k + n));
            },
            None => {
                lemma_rest_is_rewritten_alone(config, s, j, k + 1);
            },
        }
    }
}

/// Two timestamps in one line, from `a` to `b` and from `c` to `d`, with no timestamp
/// starting before, between or after them: each is replaced by its own conversion, and the
/// five parts of the line keep their order.
#[verifier::rlimit(60)]
pub proof fn lemma_two_timestamps(config: OutputSpec, s: Seq<char>, a: int, b: int, c: int, d: int)
    requires
        0 <= a <= b <= c <= d <= s.len(),
        is_timestamp(s.subrange(a, b)),
        is_timestamp(s.subrange(c, d)),
        forall|j: int| (0 <= j < a || b <= j < c || d <= j < s.len()) ==> !starts_timestamp(s, j),
    ensures
        timestamps_rewritten(config, s) == s.take(a) + replacement(config, s.subrange(a, b))
            + s.subrange(b, c) + replacement(config, s.subrange(c, d)) + s.skip(d),
{
    let first = replacement(config, s.subrange(a, b));
    let second = replacement(config, s.subrange(c, d));
    let from_b = timestamps_rewritten_from(config, s, b);
    let from_c = timestamps_rewritten_from(config, s, c);
    let from_d = timestamps_rewritten_from(config, s, d);
    assert(timestamps_rewritten(config, s) == s.take(a) + first + from_b) by {
        lemma_embedded_timestamp(s, a, s.subrange(a, b));
        lemma_first_timestamp(config, s, a, b - a);
    }
    assert(from_b == s.subrange(b, c) + from_c) by {
        lemma_stretch_without_timestamp(config, s, b, c);
    }
    assert(from_c == second + from_d) by {
        lemma_embedded_timestamp(s, c, s.subrange(c, d));
    }
    assert(from_d == s.skip(d)) by {
        lemma_rest_without_timestamp(config, s, d);
    }
    assert(s.take(a) + first + (s.subrange(b, c) + (second + s.skip(d))) =~= s.take(a) + first
        + s.subrange(b, c) + second + s.skip(d));
}

/// The rest of a line in which no timestamp starts any more stays as it is.
pub proof fn lemma_rest_without_timestamp(config: OutputSpec, s: Seq<char>, d: int)
    requires
        0 <= d <= s.len(),
        forall|j: int| d <= j < s.len() ==> !starts_timestamp(s, j),
    ensures
        timestamps_rewritten_from(config, s, d) == s.skip(d),
{
    lemma_stretch_without_timestamp(config, s, d, s.len() as int);
    assert(s.subrange(d, s.len() as int) + Seq::<char>::empty() =~= s.skip(d));
}

/// What the scan takes for a timestamp is one: the text from the start of a timestamp to
/// its end is, taken by itself, a timestamp.
pub proof fn lemma_found_text_is_timestamp(s: Seq<char>, i: int, n: int)
    requires
        timestamp_len_at(s, i) == Some(n),
    ensures
        0 <= i,
        i + n <= s.len(),
        is_timestamp(s.subrange(i, i + n)),
{
    lemma_timestamp_len_bounds(s, i);
    let (d, w) = choose|d: int, w: int| timestamp_at(s, i, d, w);
    let cut = s.take(i + n);
    let t = s.subrange(i, i + n);
    assert(cut.skip(i) =~= t);
    lemma_timestamp_at_take(s, i + n, i, d, w);
    lemma_timestamp_at_skip(cut, i, 0, d, w);
    lemma_is_timestamp(t, d, w);
}

/// A text that parts the timestamps on its two sides: it holds no digit and no `Z`, so that
/// no timestamp starts or ends in it, and a character that no timestamp holds, so that none
/// runs through it. The text ` foo ` is one.
pub open spec fn parts_timestamps(mid: Seq<char>) -> bool {
    &&& forall|i: int| 0 <= i < mid.len() ==> !is_digit(#[trigger] mid[i]) && mid[i] != 'Z'
    &&& exists|i: int| 0 <= i < mid.len() && !is_timestamp_char(#[trigger] mid[i])
}

/// A timestamp that starts before the end of a parting text ends before the text starts.
#[verifier::rlimit(60)]
pub proof fn lemma_no_timestamp_reaches(
    s: Seq<char>,
    from: int,
    to: int,
    k: int,
    digits: int,
    width: int,
)
    requires
        0 <= from <= to <= s.len(),
        parts_timestamps(s.subrange(from, to)),
        timestamp_at(s, k, digits, width),
        k < to,
    ensures
        k + timestamp_width(digits, width) <= from,
{
    let mid = s.subrange(from, to);
    let end = k + timestamp_width(digits, width);
    lemma_timestamp_chars(s, k, digits, width);
    if end > from {
        if k >= from {
            assert(mid[k - from] == s[k]);
        } else if end <= to {
            assert(mid[end - 1 - from] == s[end - 1]);
        } else {
            let p = choose|p: int| 0 <= p < mid.len() && !is_timestamp_char(#[trigger] mid[p]);
            assert(mid[p] == s[from + p]);
        }
    }
}

/// Up to a parting text, a line is rewritten as what stands before that text is by itself.
#[verifier::rlimit(60)]
pub proof fn lemma_rewrite_before_parting(
    config: OutputSpec,
    s: Seq<char>,
    from: int,
    to: int,
    k: int,
)
    requires
        0 <= k <= from <= to <= s.len(),
        parts_timestamps(s.subrange(from, to)),
    ensures
        timestamps_rewritten_from(config, s, k) == timestamps_rewritten_from(
            config,
            s.take(from),
            k,
        ) + timestamps_rewritten_from(config, s, from),
    decreases from - k,
{
    let a = s.take(from);
    let rest = timestamps_rewritten_from(config, s, from);
    if k < from {
        if starts_timestamp(s, k) {
            let (d, w) = choose|d: int, w: int| timestamp_at(s, k, d, w);
            lemma_no_timestamp_reaches(s, from, to, k, d, w);
            lemma_timestamp_at_take(s, from, k, d, w);
            lemma_timestamp_len(s, k, d, w);
            lemma_timestamp_len(a, k, d, w);
            let n = timestamp_width(d, w);
            lemma_rewrite_before_parting(config, s, from, to, k + n);
            assert(a.subrange(k, k + n) =~= s.subrange(k, k + n));
            let shown = replacement(config, s.subrange(k, k + n));
            assert(shown + (timestamps_rewritten_from(config, a, k + n) + rest) =~= shown
                + timestamps_rewritten_from(config, a, k + n) + rest);
        } else {
            if starts_timestamp(a, k) {
                let (d, w) = choose|d: int, w: int| timestamp_at(a, k, d, w);
                lemma_timestamp_chars(a, k, d, w);
                lemma_timestamp_at_take(s, from, k, d, w);
            }
            lemma_rewrite_before_parting(config, s, from, to, k + 1);
            assert(a[k] == s[k]);
            assert(seq![s[k]] + (timestamps_rewritten_from(config, a, k + 1) + rest) =~= seq![s[k]]
                + timestamps_rewritten_from(config, a, k + 1) + rest);
        }
    } else {
        assert(timestamps_rewritten_from(config, a, k) + rest =~= rest);
    }
}

/// Lines joined by a parting text are rewritten each by itself: the timestamps of the
/// joined line are those of the two lines, each converted as in its own line, and all
/// else stays where it was.
#[verifier::rlimit(60)]
pub proof fn lemma_joined_lines_timestamps(
    config: OutputSpec,
    a: Seq<char>,
    mid: Seq<char>,
    b: Seq<char>,
)
    requires
        parts_timestamps(mid),
    ensures
        timestamps_rewritten(config, a + mid + b) == timestamps_rewritten(config, a) + mid
            + timestamps_rewritten(config, b),
{
    let s = a + mid + b;
    let from = a.len() as int;
    let to = from + mid.len();
    assert(s.subrange(from, to) =~= mid);
    assert(s.take(from) =~= a);
    assert(s.skip(to) =~= b);
    lemma_rewrite_before_parting(config, s, from, to, 0);
    assert forall|j: int| from <= j < to implies !starts_timestamp(s, j) by {
        if starts_timestamp(s, j) {
            let (d, w) = choose|d: int, w: int| timestamp_at(s, j, d, w);
            lemma_timestamp_chars(s, j, d, w);
            assert(mid[j - from] == s[j]);
        }
    }
    lemma_stretch_without_timestamp(config, s, from, to);
    lemma_rest_is_rewritten_alone(config, s, to, 0);
    let first = timestamps_rewritten(config, a);
    let last = timestamps_rewritten(config, b);
    assert(first + (mid + last) =~= first + mid + last);
}

/// A run of digits starts at position `i` of `s`: a digit stands there and none before it.
pub open spec fn run_starts_at(s: Seq<char>, i: int) -> bool {
    0 <= i < s.len() && is_digit(s[i]) && (i == 0 || !is_digit(s[i - 1]))
}

/// Position `i` of `s` does not stand inside a run of digits.
pub open spec fn between_runs(s: Seq<char>, i: int) -> bool {
    i <= 0 || i >= s.len() || !is_digit(s[i - 1]) || !is_digit(s[i])
}

/// A stretch of text, cut between runs of digits, in which no run has exactly 19 digits, is
/// copied.
#[verifier::rlimit(60)]
pub proof fn lemma_stretch_without_epoch(config: OutputSpec, s: Seq<char>, k: int, i: int)
    requires
        0 <= k <= i <= s.len(),
        between_runs(s, k),
        between_runs(s, i),
        forall|j: int| k <= j < i && run_starts_at(s, j) ==> digit_run(s, j) != EPOCH_NANOS_WIDTH,
    ensures
        epochs_rewritten_from(config, s, k) == s.subrange(k, i) + epochs_rewritten_from(
            config,
            s,
            i,
        ),
    decreases i - k,
{
    let rest = epochs_rewritten_from(config, s, i);
    if k < i {
        lemma_digit_run(s, k);
        let run = digit_run(s, k);
        if run == 0 {
            lemma_stretch_without_epoch(config, s, k + 1, i);
            assert(seq![s[k]] + (s.subrange(k + 1, i) + rest) =~= s.subrange(k, i) + rest);
        } else {
            assert(run_starts_at(s, k));
            if i < k + run {
                assert(is_digit(s[i - 1]));
                assert(is_digit(s[i]));
            }
            lemma_stretch_without_epoch(config, s, k + run, i);
            assert(s.subrange(k, k + run) + (s.subrange(k + run, i) + rest) =~= s.subrange(k, i)
                + rest);
        }
    } else {
        assert(s.subrange(k, i) + rest =~= rest);
    }
}

/// A line in which no run of digits has exactly 19 digits passes the rewrite of numbers
/// unchanged. A shorter number stays, and so do 19 digits that are part of a longer number.
pub proof fn lemma_line_without_epoch(config: OutputSpec, s: Seq<char>)
    requires
        forall|j: int| run_starts_at(s, j) ==> digit_run(s, j) != EPOCH_NANOS_WIDTH,
    ensures
        epochs_rewritten(config, s) == s,
{
    lemma_stretch_without_epoch(config, s, 0, s.len() as int);
    assert(s.subrange(0, s.len() as int) + Seq::<char>::empty() =~= s);
}

/// The first run of exactly 19 digits in a line: what stands before it is copied, the run
/// is replaced, and what follows is rewritten in turn.
pub proof fn lemma_first_epoch(config: OutputSpec, s: Seq<char>, i: int)
    requires
        run_starts_at(s, i),
        digit_run(s, i) == EPOCH_NANOS_WIDTH,
        forall|j: int| 0 <= j < i && run_starts_at(s, j) ==> digit_run(s, j) != EPOCH_NANOS_WIDTH,
    ensures
        i + EPOCH_NANOS_WIDTH <= s.len(),
        epochs_rewritten(config, s) == s.take(i) + epoch_replacement(
            config,
            s.subrange(i, i + EPOCH_NANOS_WIDTH),
        ) + epochs_rewritten_from(config, s, i + EPOCH_NANOS_WIDTH),
{
    lemma_digit_run(s, i);
    lemma_stretch_without_epoch(config, s, 0, i);
    assert(s.subrange(0, i) =~= s.take(i));
}

/// A run of digits is as long in a text as in what is left of the text when characters
/// before the run are taken away.
pub proof fn lemma_digit_run_skip(s: Seq<char>, j: int, k: int)
    requires
        0 <= j <= s.len(),
        0 <= k,
    ensures
        digit_run(s, j + k) == digit_run(s.skip(j), k),
    decreases s.len() - j - k,
{
    let u = s.skip(j);
    if j + k < s.len() {
        assert(u[k] == s[j + k]);
        if is_digit(s[j + k]) {
            lemma_digit_run_skip(s, j, k + 1);
        }
    }
}

/// What follows a position is searched for numbers as if the line began there: each run
/// of digits is converted by itself.
pub proof fn lemma_rest_is_searched_alone(config: OutputSpec, s: Seq<char>, j: int, k: int)
    requires
        0 <= j <= s.len(),
        0 <= k,
    ensures
        epochs_rewritten_from(config, s, j + k) == epochs_rewritten_from(config, s.skip(j), k),
    decreases s.len() - j - k,
{
    let u = s.skip(j);
    if j + k < s.len() {
        lemma_digit_run_skip(s, j, k);
        lemma_digit_run(s, j + k);
        let run = digit_run(s, j + k);
        assert(u[k] == s[j + k]);
        if run == 0 {
            lemma_rest_is_searched_alone(config, s, j, k + 1);
        } else {
            lemma_rest_is_searched_alone(config, s, j, k + run);
            assert(s.subrange(j + k, j + k + run) =~= u.subrange(k, k + run));
        }
    }
}

/// A run of digits that ends before a character that is no digit is as long in the text
/// up to that character as in the whole text.
pub proof fn lemma_digit_run_take(s: Seq<char>, end: int, k: int)
    requires
        0 <= k <= end < s.len(),
        !is_digit(s[end]),
    ensures
        digit_run(s, k) == digit_run(s.take(end), k),
    decreases end - k,
{
    let x = s.take(end);
    if k < end {
        assert(x[k] == s[k]);
        if is_digit(s[k]) {
            lemma_digit_run_take(s, end, k + 1);
        }
    }
}

/// Up to a character that is no digit, a line is searched for numbers as what stands
/// before that character is by itself.
#[verifier::rlimit(60)]
pub proof fn lemma_search_before_parting(config: OutputSpec, s: Seq<char>, end: int, k: int)
    requires
        0 <= k <= end < s.len(),
        !is_digit(s[end]),
    ensures
        epochs_rewritten_from(config, s, k) == epochs_rewritten_from(config, s.take(end), k)
            + epochs_rewritten_from(config, s, end),
    decreases end - k,
{
    let x = s.take(end);
    let rest = epochs_rewritten_from(config, s, end);
    if k < end {
        lemma_digit_run_take(s, end, k);
        lemma_digit_run(x, k);
        let run = digit_run(s, k);
        assert(x[k] == s[k]);
        if run == 0 {
            lemma_search_before_parting(config, s, end, k + 1);
            assert(seq![s[k]] + (epochs_rewritten_from(config, x, k + 1) + rest) =~= seq![s[k]]
                + epochs_rewritten_from(config, x, k + 1) + rest);
        } else {
            lemma_search_before_parting(config, s, end, k + run);
            assert(x.subrange(k, k + run) =~= s.subrange(k, k + run));
            let shown = if run == EPOCH_NANOS_WIDTH {
                epoch_replacement(config, s.subrange(k, k + run))
            } else {
                s.subrange(k, k + run)
            };
            assert(shown + (epochs_rewritten_from(config, x, k + run) + rest) =~= shown
                + epochs_rewritten_from(config, x, k + run) + rest);
        }
    } else {
        assert(epochs_rewritten_from(config, x, k) + rest =~= rest);
    }
}

/// Lines joined by a text without digits are searched for numbers each by itself.
#[verifier::rlimit(60)]
pub proof fn lemma_joined_lines_epochs(
    config: OutputSpec,
    x: Seq<char>,
    mid: Seq<char>,
    y: Seq<char>,
)
    requires
        mid.len() > 0,
        forall|i: int| 0 <= i < mid.len() ==> !is_digit(#[trigger] mid[i]),
    ensures
        epochs_rewritten(config, x + mid + y) == epochs_rewritten(config, x) + mid
            + epochs_rewritten(config, y),
{
    let s = x + mid + y;
    let from = x.len() as int;
    let to = from + mid.len();
    assert(s.subrange(from, to) =~= mid);
    assert(s.take(from) =~= x);
    assert(s.skip(to) =~= y);
    assert(s[from] == mid[0]);
    assert(s[to - 1] == mid[mid.len() - 1]);
    lemma_search_before_parting(config, s, from, 0);
    assert forall|j: int| from <= j < to implies !run_starts_at(s, j) by {
        assert(s[j] == mid[j - from]);
    }
    lemma_stretch_without_epoch(config, s, from, to);
    lemma_rest_is_searched_alone(config, s, to, 0);
    let first = epochs_rewritten(config, x);
    let last = epochs_rewritten(config, y);
    assert(first + (mid + last) =~= first + mid + last);
}

/// Lines joined by a parting text are rewritten each by itself, numbers of nanoseconds
/// included: the rewrite of the joined line is the two rewrites, joined by the same text.
pub proof fn lemma_joined_lines(config: OutputSpec, a: Seq<char>, mid: Seq<char>, b: Seq<char>)
    requires
        parts_timestamps(mid),
    ensures
        rewritten(config, a + mid + b) == rewritten(config, a) + mid + rewritten(config, b),
{
    lemma_joined_lines_timestamps(config, a, mid, b);
    if config.epoch_nanos {
        lemma_joined_lines_epochs(
            config,
            timestamps_rewritten(config, a),
            mid,
            timestamps_rewritten(config, b),
        );
    }
}

/// Timestamps that name the same moment are replaced by the same text: the conversion
/// looks at the moment and at nothing else of the timestamp.
pub proof fn lemma_same_moment_same_text(config: OutputSpec, t: Seq<char>, u: Seq<char>)
    requires
        moment_of(t) == moment_of(u),
    ensures
        conversion(config, t) == conversion(config, u),
{
}

/// A fraction of a second is kept to the nanosecond: written as `value` in `digits`
/// decimal places, it is the same part of a second as the nanoseconds read from it are of a
/// thousand million.
pub proof fn lemma_fraction_is_exact(value: int, digits: int)
    requires
        digits == 3 || digits == 6 || digits == 9,
        0 <= value < pow10(digits as nat),
    ensures
        0 <= fraction_nanos(value, digits) < NANOS_PER_SECOND,
        fraction_nanos(value, digits) * pow10(digits as nat) == value * NANOS_PER_SECOND,
{
    lemma_pow10_values();
    if digits == 3 {
        assert(fraction_nanos(value, digits) == value * 1_000_000);
    } else if digits == 6 {
        assert(fraction_nanos(value, digits) == value * 1_000);
    } else {
        assert(fraction_nanos(value, digits) == value * 1);
    }
}

/// Zeros at the end of a fraction change nothing: three more decimal places, all zero,
/// give the same nanoseconds.
pub proof fn lemma_fraction_trailing_zeros(value: int, digits: int)
    requires
        digits == 3 || digits == 6,
    ensures
        fraction_nanos(value * 1000, digits + 3) == fraction_nanos(value, digits),
        fraction_nanos(0, 3) == fraction_nanos(value, 0),
{
    lemma_pow10_values();
    if digits == 3 {
        assert(fraction_nanos(value * 1000, 6) == (value * 1000) * 1000);
        assert(fraction_nanos(value, 3) == value * 1_000_000);
    } else {
        assert(fraction_nanos(value * 1000, 9) == (value * 1000) * 1);
        assert(fraction_nanos(value, 6) == value * 1_000);
    }
}

/// The colon of a zone marker is optional: a timestamp names the same moment with
/// `+HH:MM` as with `+HHMM`, and with `-HH:MM` as with `-HHMM`.
#[verifier::rlimit(60)]
pub proof fn lemma_zone_colon_is_optional(t: Seq<char>, digits: int)
    requires
        timestamp_at(t, 0, digits, 6),
        t.len() == timestamp_width(digits, 6),
    ensures
        ({
            let colon = zone_start(digits) + 3;
            let u = t.subrange(0, colon) + t.subrange(colon + 1, t.len() as int);
            is_timestamp(t) && is_timestamp(u) && moment_of(u) == moment_of(t)
        }),
{
    let z = zone_start(digits);
    let u = t.subrange(0, z + 3) + t.subrange(z + 4, t.len() as int);
    assert(u.len() == t.len() - 1);
    assert forall|p: int| 0 <= p < z + 3 implies u[p] == t[p] by {}
    assert forall|p: int| z + 3 <= p < u.len() implies u[p] == t[p + 1] by {}
    assert(digits_at(u, z + 1, 4)) by {
        assert forall|q: int| z + 1 <= q < z + 5 implies is_digit(#[trigger] u[q]) by {
            if q < z + 3 {
                assert(u[q] == t[q]);
            } else {
                assert(u[q] == t[q + 1]);
            }
        }
    }
    assert(datetime_at(u, 0) && fraction_at(u, 19, digits)) by {
        assert forall|p: int, n: int| 0 <= p && p + n <= z && digits_at(t, p, n) implies digits_at(
            u,
            p,
            n,
        ) by {
            assert forall|q: int| p <= q < p + n implies is_digit(#[trigger] u[q]) by {
                assert(u[q] == t[q]);
            }
        }
    }
    assert(timestamp_at(u, 0, digits, 5));
    lemma_is_timestamp(t, digits, 6);
    lemma_is_timestamp(u, digits, 5);
    assert(u.subrange(0, 4) =~= t.subrange(0, 4));
    assert(u.subrange(5, 7) =~= t.subrange(5, 7));
    assert(u.subrange(8, 10) =~= t.subrange(8, 10));
    assert(u.subrange(11, 13) =~= t.subrange(11, 13));
    assert(u.subrange(14, 16) =~= t.subrange(14, 16));
    assert(u.subrange(17, 19) =~= t.subrange(17, 19));
    assert(u.subrange(20, 20 + digits) =~= t.subrange(20, 20 + digits));
    assert(u.subrange(z + 1, z + 3) =~= t.subrange(z + 1, z + 3));
    assert(u.subrange(z + 3, z + 5) =~= t.subrange(z + 4, z + 6));
    assert(u[z] == t[z]);
}

/// `Z` stands for no offset: a timestamp names the same moment with `Z` as with `+00:00`
/// or `-00:00` in its place.
#[verifier::rlimit(60)]
pub proof fn lemma_zulu_is_no_offset(t: Seq<char>, digits: int, sign: char)
    requires
        timestamp_at(t, 0, digits, 1),
        t.len() == timestamp_width(digits, 1),
        sign == '+' || sign == '-',
    ensures
        ({
            let u = t.drop_last() + seq![sign, '0', '0', ':', '0', '0'];
            is_timestamp(t) && is_timestamp(u) && moment_of(u) == moment_of(t)
        }),
{
    let z = zone_start(digits);
    let marker = seq![sign, '0', '0', ':', '0', '0'];
    let u = t.drop_last() + marker;
    assert(u.len() == t.len() + 5);
    assert forall|p: int| 0 <= p < z implies u[p] == t[p] by {}
    assert forall|p: int| z <= p < u.len() implies u[p] == marker[p - z] by {}
    assert(datetime_at(u, 0) && fraction_at(u, 19, digits)) by {
        assert forall|p: int, n: int| 0 <= p && p + n <= z && digits_at(t, p, n) implies digits_at(
            u,
            p,
            n,
        ) by {
            assert forall|q: int| p <= q < p + n implies is_digit(#[trigger] u[q]) by {
                assert(u[q] == t[q]);
            }
        }
    }
    assert(zone_at(u, z, 6)) by {
        assert(u[z] == sign);
        assert(u[z + 1] == '0' && u[z + 2] == '0' && u[z + 3] == ':' && u[z + 4] == '0' && u[z
            + 5] == '0');
    }
    assert(timestamp_at(u, 0, digits, 6));
    lemma_is_timestamp(t, digits, 1);
    lemma_is_timestamp(u, digits, 6);
    assert(u.subrange(0, 4) =~= t.subrange(0, 4));
    assert(u.subrange(5, 7) =~= t.subrange(5, 7));
    assert(u.subrange(8, 10) =~= t.subrange(8, 10));
    assert(u.subrange(11, 13) =~= t.subrange(11, 13));
    assert(u.subrange(14, 16) =~= t.subrange(14, 16));
    assert(u.subrange(17, 19) =~= t.subrange(17, 19));
    assert(u.subrange(20, 20 + digits) =~= t.subrange(20, 20 + digits));
    let zeros = seq!['0', '0'];
    assert(u.subrange(z + 1, z + 3) =~= zeros);
    assert(u.subrange(z + 4, z + 6) =~= zeros);
    assert(decimal_value(zeros) == 0) by {
        reveal_with_fuel(decimal_value, 3);
        assert(zeros.drop_last() =~= seq!['0']);
        assert(seq!['0'].drop_last() =~= Seq::<char>::empty());
    }
    assert(field(u, z + 1, z + 3) == 0);
    assert(field(u, z + 4, z + 6) == 0);
}

/// The separator has no say: a timestamp names the same moment with a space between its
/// date and its time of day as with `T`.
#[verifier::rlimit(60)]
pub proof fn lemma_separator_has_no_say(t: Seq<char>, digits: int, width: int, separator: char)
    requires
        timestamp_at(t, 0, digits, width),
        t.len() == timestamp_width(digits, width),
        separator == ' ' || separator == 'T',
    ensures
        timestamp_at(t.update(10, separator), 0, digits, width),
        is_timestamp(t),
        is_timestamp(t.update(10, separator)),
        moment_of(t.update(10, separator)) == moment_of(t),
{
    let u = t.update(10, separator);
    let z = zone_start(digits);
    assert forall|p: int| 0 <= p < t.len() && p != 10 implies u[p] == t[p] by {}
    assert forall|p: int, n: int| digits_at(t, p, n) && (p + n <= 10 || 10 < p) implies digits_at(
        u,
        p,
        n,
    ) by {
        assert forall|q: int| p <= q < p + n implies is_digit(#[trigger] u[q]) by {
            assert(u[q] == t[q]);
        }
    }
    assert(datetime_at(u, 0)) by {
        assert(u[4] == t[4] && u[7] == t[7] && u[13] == t[13] && u[16] == t[16]);
        assert(u[10] == separator);
    }
    assert(fraction_at(u, 19, digits)) by {
        assert(u[19] == t[19]);
    }
    assert(zone_at(u, z, width)) by {
        assert(u[z] == t[z]);
        if width == 6 {
            assert(u[z + 3] == t[z + 3]);
        }
    }
    lemma_is_timestamp(t, digits, width);
    lemma_is_timestamp(u, digits, width);
    assert(u.subrange(0, 4) =~= t.subrange(0, 4));
    assert(u.subrange(5, 7) =~= t.subrange(5, 7));
    assert(u.subrange(8, 10) =~= t.subrange(8, 10));
    assert(u.subrange(11, 13) =~= t.subrange(11, 13));
    assert(u.subrange(14, 16) =~= t.subrange(14, 16));
    assert(u.subrange(17, 19) =~= t.subrange(17, 19));
    assert(u.subrange(20, 20 + digits) =~= t.subrange(20, 20 + digits));
    assert(u[z] == t[z]);
    if width > 1 {
        assert(u.subrange(z + 1, z + 3) =~= t.subrange(z + 1, z + 3));
        assert(u.subrange(z + width - 2, z + width) =~= t.subrange(z + width - 2, z + width));
    }
}

/// The ways to write a time of day of UTC agree: a timestamp that ends in `Z` is converted
/// to the same text as the one that has the same date, time of day and fraction, either
/// separator, and `+00:00` or `-00:00` for its zone marker.
pub proof fn lemma_utc_forms_agree(
    config: OutputSpec,
    t: Seq<char>,
    digits: int,
    separator: char,
    sign: char,
)
    requires
        timestamp_at(t, 0, digits, 1),
        t.len() == timestamp_width(digits, 1),
        separator == ' ' || separator == 'T',
        sign == '+' || sign == '-',
    ensures
        ({
            let u = t.update(10, separator).drop_last() + seq![sign, '0', '0', ':', '0', '0'];
            is_timestamp(u) && moment_of(u) == moment_of(t) && conversion(config, u) == conversion(
                config,
                t,
            )
        }),
{
    let v = t.update(10, separator);
    lemma_separator_has_no_say(t, digits, 1, separator);
    lemma_zulu_is_no_offset(v, digits, sign);
}

/// Three zeros more at the end of a fraction change nothing: the timestamp names the same
/// moment with `.123` as with `.123000`, and with `.123456` as with `.123456000`.
#[verifier::rlimit(60)]
pub proof fn lemma_fraction_zeros_are_optional(t: Seq<char>, digits: int, width: int)
    requires
        timestamp_at(t, 0, digits, width),
        t.len() == timestamp_width(digits, width),
        digits == 3 || digits == 6,
    ensures
        ({
            let end = 20 + digits;
            let u = t.take(end) + seq!['0', '0', '0'] + t.skip(end);
            is_timestamp(t) && is_timestamp(u) && moment_of(u) == moment_of(t)
        }),
{
    let end = 20 + digits;
    let zeros = seq!['0', '0', '0'];
    let u = t.take(end) + zeros + t.skip(end);
    let z = zone_start(digits);
    let y = zone_start(digits + 3);
    assert(u.len() == t.len() + 3);
    assert forall|p: int| 0 <= p < end implies u[p] == t[p] by {}
    assert forall|p: int| end <= p < end + 3 implies u[p] == '0' by {
        assert(u[p] == zeros[p - end]);
    }
    assert forall|p: int| end + 3 <= p < u.len() implies u[p] == t[p - 3] by {}
    assert(datetime_at(u, 0)) by {
        assert forall|p: int, n: int| 0 <= p && p + n <= 19 && digits_at(t, p, n) implies digits_at(
            u,
            p,
            n,
        ) by {
            assert forall|q: int| p <= q < p + n implies is_digit(#[trigger] u[q]) by {
                assert(u[q] == t[q]);
            }
        }
    }
    assert(fraction_at(u, 19, digits + 3)) by {
        assert(u[19] == t[19]);
        assert forall|q: int| 20 <= q < 20 + digits + 3 implies is_digit(#[trigger] u[q]) by {
            if q < end {
                assert(u[q] == t[q]);
                assert(is_digit(t[q]));
            }
        }
    }
    assert(zone_at(u, y, width)) by {
        assert(y == z + 3);
        assert forall|p: int, n: int| z <= p && digits_at(t, p, n) implies digits_at(
            u,
            p + 3,
            n,
        ) by {
            assert forall|q: int| p + 3 <= q < p + 3 + n implies is_digit(#[trigger] u[q]) by {
                assert(u[q] == t[q - 3]);
                assert(is_digit(t[q - 3]));
            }
        }
        assert(u[y] == t[z]);
        if width == 5 {
            assert(digits_at(u, (z + 1) + 3, 4));
        }
        if width == 6 {
            assert(digits_at(u, (z + 1) + 3, 2));
            assert(u[y + 3] == t[z + 3]);
            assert(digits_at(u, (z + 4) + 3, 2));
        }
    }
    assert(timestamp_at(u, 0, digits + 3, width));
    lemma_is_timestamp(t, digits, width);
    lemma_is_timestamp(u, digits + 3, width);
    assert(u.subrange(0, 4) =~= t.subrange(0, 4));
    assert(u.subrange(5, 7) =~= t.subrange(5, 7));
    assert(u.subrange(8, 10) =~= t.subrange(8, 10));
    assert(u.subrange(11, 13) =~= t.subrange(11, 13));
    assert(u.subrange(14, 16) =~= t.subrange(14, 16));
    assert(u.subrange(17, 19) =~= t.subrange(17, 19));
    assert(u.subrange(20, 20 + digits + 3) =~= t.subrange(20, 20 + digits) + zeros);
    lemma_decimal_value_zeros(t.subrange(20, 20 + digits));
    lemma_fraction_trailing_zeros(field(t, 20, 20 + digits), digits);
    assert(u[y] == t[z]);
    if width > 1 {
        assert(u.subrange(y + 1, y + 3) =~= t.subrange(z + 1, z + 3));
        assert(u.subrange(y + width - 2, y + width) =~= t.subrange(z + width - 2, z + width));
    }
}

/// A fraction of three zeros is as good as none: the timestamp names the same moment with
/// `.000` after its seconds as without.
#[verifier::rlimit(60)]
pub proof fn lemma_fraction_of_zeros_is_none(t: Seq<char>, width: int)
    requires
        timestamp_at(t, 0, 0, width),
        t.len() == timestamp_width(0, width),
    ensures
        ({
            let u = t.take(19) + seq!['.', '0', '0', '0'] + t.skip(19);
            is_timestamp(t) && is_timestamp(u) && moment_of(u) == moment_of(t)
        }),
{
    let fraction = seq!['.', '0', '0', '0'];
    let u = t.take(19) + fraction + t.skip(19);
    let z = zone_start(0);
    let y = zone_start(3);
    assert(u.len() == t.len() + 4);
    assert forall|p: int| 0 <= p < 19 implies u[p] == t[p] by {}
    assert forall|p: int| 19 <= p < 23 implies u[p] == fraction[p - 19] by {}
    assert forall|p: int| 23 <= p < u.len() implies u[p] == t[p - 4] by {}
    assert(datetime_at(u, 0)) by {
        assert forall|p: int, n: int| 0 <= p && p + n <= 19 && digits_at(t, p, n) implies digits_at(
            u,
            p,
            n,
        ) by {
            assert forall|q: int| p <= q < p + n implies is_digit(#[trigger] u[q]) by {
                assert(u[q] == t[q]);
            }
        }
    }
    assert(fraction_at(u, 19, 3)) by {
        assert(u[19] == '.');
        assert forall|q: int| 20 <= q < 23 implies is_digit(#[trigger] u[q]) by {
            assert(u[q] == fraction[q - 19]);
        }
    }
    assert(zone_at(u, y, width)) by {
        assert(y == z + 4);
        assert forall|p: int, n: int| z <= p && digits_at(t, p, n) implies digits_at(
            u,
            p + 4,
            n,
        ) by {
            assert forall|q: int| p + 4 <= q < p + 4 + n implies is_digit(#[trigger] u[q]) by {
                assert(u[q] == t[q - 4]);
                assert(is_digit(t[q - 4]));
            }
        }
        assert(u[y] == t[z]);
        if width == 5 {
            assert(digits_at(u, (z + 1) + 4, 4));
        }
        if width == 6 {
            assert(digits_at(u, (z + 1) + 4, 2));
            assert(u[y + 3] == t[z + 3]);
            assert(digits_at(u, (z + 4) + 4, 2));
        }
    }
    assert(timestamp_at(u, 0, 3, width));
    lemma_is_timestamp(t, 0, width);
    lemma_is_timestamp(u, 3, width);
    assert(u.subrange(0, 4) =~= t.subrange(0, 4));
    assert(u.subrange(5, 7) =~= t.subrange(5, 7));
    assert(u.subrange(8, 10) =~= t.subrange(8, 10));
    assert(u.subrange(11, 13) =~= t.subrange(11, 13));
    assert(u.subrange(14, 16) =~= t.subrange(14, 16));
    assert(u.subrange(17, 19) =~= t.subrange(17, 19));
    assert(u.subrange(20, 23) =~= Seq::<char>::empty() + seq!['0', '0', '0']);
    lemma_decimal_value_zeros(Seq::<char>::empty());
    assert(field(u, 20, 23) == 0);
    assert(fraction_nanos(0, 3) == 0) by {
        lemma_pow10_values();
    }
    assert(u[y] == t[z]);
    if width > 1 {
        assert(u.subrange(y + 1, y + 3) =~= t.subrange(z + 1, z + 3));
        assert(u.subrange(y + width - 2, y + width) =~= t.subrange(z + width - 2, z + width));
    }
}

} // verus!
