//! The rewriter: it finds the timestamps of a line and writes each anew, as the clocks of
//! one timezone showed that moment.

use crate::calendar::{formatted_text, render_formatted, render_rfc3339, rfc3339_text};
use crate::instant::{Instant, Moment};
use crate::text::{
    append_chars, chars_of, decimal_value, is_ascii_digit, is_digit, parse_digits, string_of,
};
use crate::scanner::{
    find_timestamps, is_scan, lemma_match_is_the_timestamp, lemma_scan_entry, lemma_scan_rest,
    lemma_timestamp_len_bounds, lemma_timestamp_unique, match_at, search_start,
    starts_timestamp, timestamp_at, timestamp_len_at,
};
use crate::timestamp::{moment_of, read_instant};
use crate::RizzyError;
use chrono_tz::Tz;
use vstd::prelude::*;
use vstd::slice::slice_subrange;

verus! {

/// What governs a rewrite: the timezone to show instants in, the layout to show them with
/// (RFC 3339 where none is given), and whether numbers of nanoseconds since 1970 count as
/// timestamps too.
pub struct OutputSpec {
    pub tz: Tz,
    pub format: Option<Seq<char>>,
    pub epoch_nanos: bool,
}

/// A rewriter, configured once and then only read.
pub struct Rizzy {
    tz: Tz,
    format: Option<String>,
    epoch_nanos: bool,
}

/// The digits that a number of nanoseconds since 1970 is written with.
pub const EPOCH_NANOS_WIDTH: usize = 19;

/// The text of an optional string.
pub open spec fn text_of(s: Option<String>) -> Option<Seq<char>> {
    match s {
        Some(s) => Some(s@),
        None => None,
    }
}

/// The text that shows the moment `m` as `config` asks, where chrono can show it.
pub open spec fn rendered(config: OutputSpec, m: Moment) -> Option<Seq<char>> {
    match config.format {
        Some(format) => formatted_text(config.tz, m.secs, m.nanos, format),
        None => rfc3339_text(config.tz, m.secs, m.nanos),
    }
}

/// The text that takes the place of the timestamp `t`. There is none where `t` names no
/// moment or the moment cannot be shown.
pub open spec fn conversion(config: OutputSpec, t: Seq<char>) -> Option<Seq<char>> {
    match moment_of(t) {
        Some(m) => rendered(config, m),
        None => None,
    }
}

/// What the error says where a format cannot be used.
pub open spec fn unusable_format_message(format: Seq<char>) -> Seq<char> {
    "Cannot render a timestamp with the format "@ + format
}

/// `r` is what converting the text `t` comes to: the text that shows the moment that `t`
/// names; `MalformedTimestamp` with `t` where `t` names none; and where chrono cannot show
/// the moment, `InvalidArg` if a format was configured, which then is at fault, and
/// `MalformedTimestamp` if none was.
pub open spec fn is_conversion(
    config: OutputSpec,
    t: Seq<char>,
    r: Result<String, RizzyError>,
) -> bool {
    match moment_of(t) {
        Some(m) => match rendered(config, m) {
            Some(text) => r matches Ok(shown) && shown@ == text,
            None => match config.format {
                Some(format) => r matches Err(RizzyError::InvalidArg(message)) && message@
                    == unusable_format_message(format),
                None => r matches Err(RizzyError::MalformedTimestamp(given)) && given@ == t,
            },
        },
        None => r matches Err(RizzyError::MalformedTimestamp(given)) && given@ == t,
    }
}

/// What a rewrite leaves where the timestamp `t` stood: its conversion, or `t` itself where
/// it has none.
pub open spec fn replacement(config: OutputSpec, t: Seq<char>) -> Seq<char> {
    match conversion(config, t) {
        Some(text) => text,
        None => t,
    }
}

/// The rewrite of `s` from position `i` on. Timestamps are taken from left to right; what
/// follows a timestamp is searched from its end.
pub open spec fn timestamps_rewritten_from(config: OutputSpec, s: Seq<char>, i: int) -> Seq<char>
    decreases s.len() - i,
    via timestamps_rewritten_from_ends
{
    if i < 0 || i >= s.len() {
        Seq::empty()
    } else {
        match timestamp_len_at(s, i) {
            Some(n) => replacement(config, s.subrange(i, i + n)) + timestamps_rewritten_from(
                config,
                s,
                i + n,
            ),
            None => seq![s[i]] + timestamps_rewritten_from(config, s, i + 1),
        }
    }
}

#[via_fn]
proof fn timestamps_rewritten_from_ends(config: OutputSpec, s: Seq<char>, i: int) {
    if starts_timestamp(s, i) {
        lemma_timestamp_len_bounds(s, i);
    }
}

/// The line `s` with each of its timestamps replaced.
pub open spec fn timestamps_rewritten(config: OutputSpec, s: Seq<char>) -> Seq<char> {
    timestamps_rewritten_from(config, s, 0)
}

/// The number of decimal digits that follow each other in `s` from position `i` on.
pub open spec fn digit_run(s: Seq<char>, i: int) -> int
    decreases s.len() - i,
{
    if 0 <= i < s.len() && is_digit(s[i]) {
        1 + digit_run(s, i + 1)
    } else {
        0
    }
}

/// The moment that `digits` names as a number of nanoseconds since 1970.
pub open spec fn epoch_moment(digits: Seq<char>) -> Moment {
    Moment {
        secs: decimal_value(digits) as int / 1_000_000_000,
        nanos: decimal_value(digits) as int % 1_000_000_000,
    }
}

/// What a rewrite leaves where the number `digits` stood.
pub open spec fn epoch_replacement(config: OutputSpec, digits: Seq<char>) -> Seq<char> {
    match rendered(config, epoch_moment(digits)) {
        Some(text) => text,
        None => digits,
    }
}

/// The rewrite of the numbers of `s` from position `i` on, where `i` does not stand inside
/// a number. A run of digits is replaced where it has exactly 19 of them.
pub open spec fn epochs_rewritten_from(config: OutputSpec, s: Seq<char>, i: int) -> Seq<char>
    decreases s.len() - i,
    via epochs_rewritten_from_ends
{
    if i < 0 || i >= s.len() {
        Seq::empty()
    } else {
        let run = digit_run(s, i);
        if run == 0 {
            seq![s[i]] + epochs_rewritten_from(config, s, i + 1)
        } else if run == EPOCH_NANOS_WIDTH {
            epoch_replacement(config, s.subrange(i, i + run)) + epochs_rewritten_from(
                config,
                s,
                i + run,
            )
        } else {
            s.subrange(i, i + run) + epochs_rewritten_from(config, s, i + run)
        }
    }
}

#[via_fn]
proof fn epochs_rewritten_from_ends(config: OutputSpec, s: Seq<char>, i: int) {
    if 0 <= i < s.len() {
        lemma_digit_run(s, i);
    }
}

/// The line `s` with each number of exactly 19 digits replaced.
pub open spec fn epochs_rewritten(config: OutputSpec, s: Seq<char>) -> Seq<char> {
    epochs_rewritten_from(config, s, 0)
}

/// The line that a rewriter configured as `config` makes of `line`.
pub open spec fn rewritten(config: OutputSpec, line: Seq<char>) -> Seq<char> {
    if config.epoch_nanos {
        epochs_rewritten(config, timestamps_rewritten(config, line))
    } else {
        timestamps_rewritten(config, line)
    }
}

/// A run of digits reaches as far as its digits do and ends before a character that is none.
pub proof fn lemma_digit_run(s: Seq<char>, i: int)
    requires
        0 <= i <= s.len(),
    ensures
        0 <= digit_run(s, i) <= s.len() - i,
        forall|k: int| i <= k < i + digit_run(s, i) ==> is_digit(#[trigger] s[k]),
        i + digit_run(s, i) < s.len() ==> !is_digit(s[i + digit_run(s, i)]),
    decreases s.len() - i,
{
    if i < s.len() && is_digit(s[i]) {
        lemma_digit_run(s, i + 1);
    }
}

/// A stretch of text in which no timestamp starts is copied.
pub proof fn lemma_stretch_without_timestamp(config: OutputSpec, s: Seq<char>, k: int, i: int)
    requires
        0 <= k <= i <= s.len(),
        forall|j: int| k <= j < i ==> !starts_timestamp(s, j),
    ensures
        timestamps_rewritten_from(config, s, k) == s.subrange(k, i) + timestamps_rewritten_from(
            config,
            s,
            i,
        ),
    decreases i - k,
{
    if k < i {
        lemma_stretch_without_timestamp(config, s, k + 1, i);
        assert(!starts_timestamp(s, k));
        assert(seq![s[k]] + (s.subrange(k + 1, i) + timestamps_rewritten_from(config, s, i))
            =~= s.subrange(k, i) + timestamps_rewritten_from(config, s, i));
    } else {
        assert(s.subrange(k, i) + timestamps_rewritten_from(config, s, i)
            =~= timestamps_rewritten_from(config, s, i));
    }
}

/// The error for a format that cannot be used.
fn unusable_format(format: &str) -> (error: RizzyError)
    ensures
        error matches RizzyError::InvalidArg(message) && message@ == unusable_format_message(
            format@,
        ),
{
    let mut message = "Cannot render a timestamp with the format ".to_owned();
    message.append(format);
    RizzyError::InvalidArg(message)
}

impl View for Rizzy {
    type V = OutputSpec;

    closed spec fn view(&self) -> OutputSpec {
        OutputSpec { tz: self.tz, format: text_of(self.format), epoch_nanos: self.epoch_nanos }
    }
}

impl Rizzy {
    /// A rewriter that shows instants in `tz`, laid out as `format` says or, without one, in
    /// RFC 3339 form, and that takes numbers of 19 digits for timestamps if `epoch_nanos`.
    pub fn new(tz: Tz, format: Option<String>, epoch_nanos: bool) -> (rizzy: Rizzy)
        ensures
            rizzy@ == (OutputSpec { tz, format: text_of(format), epoch_nanos }),
    {
        Rizzy { tz, format, epoch_nanos }
    }

    /// Shows `instant` in the configured timezone and layout. There is no text where chrono
    /// has no date for the instant or rejects the format.
    pub fn format_time(&self, instant: &Instant) -> (text: Option<String>)
        ensures
            text_of(text) == rendered(self@, instant@),
    {
        match &self.format {
            Some(format) => render_formatted(self.tz, instant.secs, instant.nanos, format.as_str()),
            None => render_rfc3339(self.tz, instant.secs, instant.nanos),
        }
    }

    /// Tries the configured format, if there is one, on the start of 1970: a format that
    /// chrono cannot lay that instant out with gives `InvalidArg`.
    pub fn try_format(&self) -> (r: Result<(), RizzyError>)
        ensures
            match self@.format {
                Some(format) => match formatted_text(self@.tz, 0, 0, format) {
                    Some(_) => r is Ok,
                    None => r matches Err(RizzyError::InvalidArg(message)) && message@
                        == unusable_format_message(format),
                },
                None => r is Ok,
            },
    {
        match &self.format {
            Some(format) => match render_formatted(self.tz, 0, 0, format.as_str()) {
                Some(_) => Ok(()),
                None => Err(unusable_format(format.as_str())),
            },
            None => Ok(()),
        }
    }

    /// Converts one timestamp given as characters.
    fn replace_chars(&self, t: &[char]) -> (r: Result<String, RizzyError>)
        ensures
            is_conversion(self@, t@, r),
            r is Ok <==> conversion(self@, t@) is Some,
    {
        let found = match match_at(t, 0) {
            Some(found) => found,
            None => {
                return Err(RizzyError::MalformedTimestamp(string_of(t)));
            },
        };
        proof {
            lemma_match_is_the_timestamp(found, t@);
        }
        if found.end != t.len() {
            return Err(RizzyError::MalformedTimestamp(string_of(t)));
        }
        proof {
            let (d, w) = choose|d: int, w: int| timestamp_at(t@, 0, d, w);
            lemma_timestamp_unique(
                t@,
                0,
                d,
                w,
                found.fraction_digits as int,
                found.zone_width as int,
            );
        }
        let instant = match read_instant(t, &found) {
            Some(instant) => instant,
            None => {
                return Err(RizzyError::MalformedTimestamp(string_of(t)));
            },
        };
        match self.format_time(&instant) {
            Some(text) => Ok(text),
            None => match &self.format {
                Some(format) => Err(unusable_format(format.as_str())),
                None => Err(RizzyError::MalformedTimestamp(string_of(t))),
            },
        }
    }

    /// Converts the timestamp `some_ts`: the text that shows, in the configured timezone and
    /// layout, the moment that it names.
    ///
    /// Fails with `MalformedTimestamp` where `some_ts` is no timestamp or names no moment
    /// (a 32nd day, a 25th hour, an offset of a day or more), and with `InvalidArg` where
    /// the moment cannot be shown in the configured format.
    pub fn replace_one_time(&self, some_ts: &str) -> (r: Result<String, RizzyError>)
        ensures
            is_conversion(self@, some_ts@, r),
    {
        let t = chars_of(some_ts);
        self.replace_chars(t.as_slice())
    }

    /// Replaces each timestamp of `text` by its conversion; one that has none stays as it
    /// is, and so does all that is no timestamp.
    #[verifier::rlimit(60)]
    pub fn rewrite_timestamps(&self, text: &[char]) -> (out: Vec<char>)
        ensures
            out@ == timestamps_rewritten(self@, text@),
    {
        let found = find_timestamps(text);
        let ghost s = text@;
        let mut out: Vec<char> = Vec::new();
        let mut at: usize = 0;
        let mut k: usize = 0;
        while k < found.len()
            invariant
                k <= found@.len(),
                s == text@,
                is_scan(s, found@),
                at == search_start(found@, k as int),
                at <= s.len(),
                out@ + timestamps_rewritten_from(self@, s, at as int) == timestamps_rewritten(
                    self@,
                    s,
                ),
            decreases found@.len() - k,
        {
            let m = found[k];
            proof {
                lemma_scan_entry(s, found@, k as int);
                lemma_match_is_the_timestamp(m, s);
                lemma_stretch_without_timestamp(self@, s, at as int, m.start as int);
            }
            let ghost before = out@;
            let gap = slice_subrange(text, at, m.start);
            let piece = slice_subrange(text, m.start, m.end);
            append_chars(&mut out, gap);
            match self.replace_chars(piece) {
                Ok(converted) => {
                    let shown = chars_of(converted.as_str());
                    append_chars(&mut out, shown.as_slice());
                },
                Err(_) => {
                    // a timestamp that cannot be converted stays
                    append_chars(&mut out, piece);
                },
            }
            assert(out@ == before + gap@ + replacement(self@, piece@));
            assert(out@ + timestamps_rewritten_from(self@, s, m.end as int) =~= before + (gap@
                + (replacement(self@, piece@) + timestamps_rewritten_from(
                self@,
                s,
                m.end as int,
            ))));
            at = m.end;
            k = k + 1;
        }
        proof {
            lemma_scan_rest(s, found@);
            lemma_stretch_without_timestamp(self@, s, at as int, s.len() as int);
        }
        let ghost before = out@;
        let rest = slice_subrange(text, at, text.len());
        append_chars(&mut out, rest);
        assert(out@ =~= before + (rest@ + timestamps_rewritten_from(self@, s, s.len() as int)));
        out
    }

    /// Replaces each run of exactly 19 digits in `text` by the text that shows the moment
    /// so many nanoseconds after the start of 1970; a run that cannot be shown stays, and so
    /// does all else.
    #[verifier::rlimit(60)]
    pub fn rewrite_epochs(&self, text: &[char]) -> (out: Vec<char>)
        ensures
            out@ == epochs_rewritten(self@, text@),
    {
        let mut out: Vec<char> = Vec::new();
        let mut i: usize = 0;
        while i < text.len()
            invariant
                i <= text@.len(),
                out@ + epochs_rewritten_from(self@, text@, i as int) == epochs_rewritten_from(
                    self@,
                    text@,
                    0,
                ),
            decreases text@.len() - i,
        {
            let ghost before = out@;
            let mut end: usize = i;
            while end < text.len() && is_ascii_digit(text[end])
                invariant
                    i <= end <= text@.len(),
                    digit_run(text@, i as int) == end - i + digit_run(text@, end as int),
                decreases text@.len() - end,
            {
                end = end + 1;
            }
            if end == i {
                out.push(text[i]);
                assert(out@ + epochs_rewritten_from(self@, text@, i + 1) =~= before
                    + epochs_rewritten_from(self@, text@, i as int));
                i = i + 1;
            } else {
                let piece = slice_subrange(text, i, end);
                let mut converted: Option<String> = None;
                if end - i == EPOCH_NANOS_WIDTH {
                    proof {
                        lemma_digit_run(text@, i as int);
                    }
                    let value = parse_digits(text, i, end);
                    let instant = Instant {
                        secs: (value / 1_000_000_000) as i64,
                        nanos: (value % 1_000_000_000) as u32,
                    };
                    assert(instant@ == epoch_moment(piece@));
                    converted = self.format_time(&instant);
                }
                match converted {
                    Some(text) => {
                        let shown = chars_of(text.as_str());
                        append_chars(&mut out, shown.as_slice());
                    },
                    None => {
                        append_chars(&mut out, piece);
                    },
                }
                assert(out@ + epochs_rewritten_from(self@, text@, end as int) =~= before
                    + epochs_rewritten_from(self@, text@, i as int));
                i = end;
            }
        }
        assert(out@ + Seq::<char>::empty() =~= out@);
        out
    }

    /// Rewrites one line. Each timestamp is replaced by the text that shows its moment in
    /// the configured timezone and layout; then, if the rewriter was told to, each number of
    /// exactly 19 digits likewise, read as nanoseconds since 1970. All other characters
    /// stay. A timestamp that names no moment, or whose moment cannot be shown, stays too.
    pub fn handle_line(&self, line: &str) -> (out: String)
        ensures
            out@ == rewritten(self@, line@),
    {
        let text = chars_of(line);
        let first = self.rewrite_timestamps(text.as_slice());
        if self.epoch_nanos {
            let second = self.rewrite_epochs(first.as_slice());
            string_of(second.as_slice())
        } else {
            string_of(first.as_slice())
        }
    }
}

} // verus!
