//! Lengths of time, held as whole seconds and a nanosecond remainder.
use vstd::prelude::*;
use crate::text::{chars_of, is_digit, is_digit_char};

verus! {

pub const NANOS_PER_SEC: u32 = 1_000_000_000;

/// A length of time: `secs` seconds and `nanos` nanoseconds, `nanos` below one second.
#[derive(Clone, Copy, Debug, PartialEq, Eq, Structural)]
pub struct Span {
    pub secs: u64,
    pub nanos: u32,
}

impl Span {
    pub open spec fn wf(self) -> bool {
        self.nanos < NANOS_PER_SEC
    }

    /// The length in nanoseconds.
    pub open spec fn total_nanos(self) -> int {
        self.secs * 1_000_000_000 + self.nanos
    }

    pub fn from_secs(secs: u64) -> (r: Span)
        ensures
            r.wf(),
            r.total_nanos() == secs * 1_000_000_000,
    {
        Span { secs, nanos: 0 }
    }

    pub fn from_millis(ms: u64) -> (r: Span)
        ensures
            r.wf(),
            r.total_nanos() == ms * 1_000_000,
    {
        let nanos = ((ms % 1000) as u32) * 1_000_000;
        Span { secs: ms / 1000, nanos }
    }

    /// Whether `self` is shorter than `other`.
    pub fn shorter_than(&self, other: &Span) -> (r: bool)
        requires
            self.wf(),
            other.wf(),
        ensures
            r == (self.total_nanos() < other.total_nanos()),
    {
        self.secs < other.secs || (self.secs == other.secs && self.nanos < other.nanos)
    }
}

/// The length of time that `humantime::parse_duration` reads from a text, as
/// seconds and nanoseconds, or `None` where it refuses the text.
pub uninterp spec fn humantime_duration(s: Seq<char>) -> Option<(u64, u32)>;

/// The number of ASCII digits in `s`.
pub open spec fn digit_count(s: Seq<char>) -> nat
    decreases s.len(),
{
    if s.len() == 0 {
        0
    } else {
        digit_count(s.drop_last()) + if is_digit(s.last()) {
            1nat
        } else {
            0nat
        }
    }
}

/// The most digits a duration text may hold. The numbers of such a text add
/// up to less than `10^11`, and no unit is longer than 31_557_600 seconds, so
/// its seconds stay far below `u64::MAX`.
pub const MAX_DURATION_DIGITS: usize = 11;

/// Relies on humantime::parse_duration: its result depends on the text alone,
/// and the subsecond part of a `Duration` is below one second. It panics only
/// where the seconds reach `u64::MAX` (`Duration::new` on a carried second),
/// which a text of at most `MAX_DURATION_DIGITS` digits cannot reach.
#[verifier::external_body]
pub(crate) fn parse_duration_text(s: &str) -> (r: Option<Span>)
    requires
        digit_count(s@) <= MAX_DURATION_DIGITS,
    ensures
        r is None <==> humantime_duration(s@) is None,
        r matches Some(d) ==> humantime_duration(s@) == Some((d.secs, d.nanos)) && d.wf(),
{
    humantime::parse_duration(s).ok().map(|d| Span { secs: d.as_secs(), nanos: d.subsec_nanos() })
}

/// What a duration text is read as: `None` where it has too many digits or
/// where humantime refuses it.
pub open spec fn duration_of(s: Seq<char>) -> Option<Span> {
    if digit_count(s) > MAX_DURATION_DIGITS {
        None
    } else {
        match humantime_duration(s) {
            Some(p) => Some(Span { secs: p.0, nanos: p.1 }),
            None => None,
        }
    }
}

/// Counts the ASCII digits of `s`.
pub fn count_digits(s: &str) -> (r: usize)
    ensures
        r == digit_count(s@),
{
    let v = chars_of(s);
    let mut n: usize = 0;
    let mut i: usize = 0;
    while i < v.len()
        invariant
            v@ == s@,
            i <= v@.len(),
            n == digit_count(v@.subrange(0, i as int)),
            n <= i,
        decreases v@.len() - i,
    {
        assert(v@.subrange(0, i + 1).drop_last() =~= v@.subrange(0, i as int));
        if is_digit_char(v[i]) {
            n = n + 1;
        }
        i = i + 1;
    }
    assert(v@.subrange(0, v@.len() as int) =~= s@);
    n
}

/// Reads a duration as humantime does, refusing a text of more than
/// `MAX_DURATION_DIGITS` digits.
pub fn read_duration(s: &str) -> (r: Option<Span>)
    ensures
        r == duration_of(s@),
        r matches Some(d) ==> d.wf(),
{
    if count_digits(s) > MAX_DURATION_DIGITS {
        None
    } else {
        parse_duration_text(s)
    }
}

} // verus!
