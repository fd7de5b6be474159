//! Points in time as plain values.

use vstd::prelude::*;
use vstd::string::*;

verus! {

/// A point in time, counted from the Unix epoch in UTC.
#[derive(Clone, Copy, Debug, PartialEq, Eq, Structural)]
pub struct Timestamp {
    /// Whole seconds since the epoch; negative before it.
    pub secs: i64,
    /// Nanoseconds past `secs`.
    pub nanos: u32,
}

impl Timestamp {
    /// The nanoseconds in one second.
    pub open spec fn nanos_per_sec() -> int {
        1_000_000_000
    }

    /// Whether the sub-second part is in range.
    pub open spec fn wf(self) -> bool {
        self.nanos < Self::nanos_per_sec()
    }

    /// The Unix epoch itself.
    pub fn epoch() -> (t: Timestamp)
        ensures
            t == (Timestamp { secs: 0, nanos: 0 }),
            t.wf(),
    {
        Timestamp { secs: 0, nanos: 0 }
    }
}

/// Reads the system clock through `time::OffsetDateTime::now_utc` and hands
/// back its `unix_timestamp` and `nanosecond`. Nothing is claimed about which
/// instant comes back, only that the sub-second part is below one second, as
/// `nanosecond` documents.
#[verifier::external_body]
pub(crate) fn now_utc() -> (t: Timestamp)
    ensures
        t.wf(),
{
    let now = time::OffsetDateTime::now_utc();
    Timestamp { secs: now.unix_timestamp(), nanos: now.nanosecond() }
}

/// The numeral of one decimal digit.
pub open spec fn digit(d: int) -> Seq<char> {
    if d == 0 {
        "0"@
    } else if d == 1 {
        "1"@
    } else if d == 2 {
        "2"@
    } else if d == 3 {
        "3"@
    } else if d == 4 {
        "4"@
    } else if d == 5 {
        "5"@
    } else if d == 6 {
        "6"@
    } else if d == 7 {
        "7"@
    } else if d == 8 {
        "8"@
    } else {
        "9"@
    }
}

/// A number below one hundred in two digits, with a leading zero if need be.
pub open spec fn two_digits(n: int) -> Seq<char> {
    digit(n / 10) + digit(n % 10)
}

/// The seconds that have passed of the day, in UTC, at `secs` seconds from
/// the epoch.
pub open spec fn second_of_day(secs: int) -> int {
    secs % 86_400
}

/// The time of day in UTC as hours, minutes and seconds: `HH:MM:SS`.
pub open spec fn clock_text(t: Timestamp) -> Seq<char> {
    let s = second_of_day(t.secs as int);
    two_digits(s / 3_600) + ":"@ + two_digits((s / 60) % 60) + ":"@ + two_digits(s % 60)
}

fn digit_str(d: u64) -> (s: &'static str)
    requires
        d < 10,
    ensures
        s@ == digit(d as int),
{
    if d == 0 {
        "0"
    } else if d == 1 {
        "1"
    } else if d == 2 {
        "2"
    } else if d == 3 {
        "3"
    } else if d == 4 {
        "4"
    } else if d == 5 {
        "5"
    } else if d == 6 {
        "6"
    } else if d == 7 {
        "7"
    } else if d == 8 {
        "8"
    } else {
        "9"
    }
}

fn push_two_digits(text: &mut String, n: u64)
    requires
        n < 100,
    ensures
        final(text)@ == old(text)@ + two_digits(n as int),
{
    text.append(digit_str(n / 10));
    text.append(digit_str(n % 10));
    assert(text@ =~= old(text)@ + two_digits(n as int));
}

impl Timestamp {
    /// The seconds that have passed of the day, in UTC.
    pub fn second_of_day(&self) -> (s: u64)
        ensures
            s == second_of_day(self.secs as int),
            s < 86_400,
    {
        if self.secs >= 0 {
            (self.secs as u64) % 86_400
        } else {
            // The day is counted back from its end.
            let back: u64 = ((-(self.secs + 1)) as u64) % 86_400;
            assert(second_of_day(self.secs as int) == 86_399 - back) by {
                let n = -(self.secs + 1) as int;
                let q = n / 86_400;
                assert(n == 86_400 * q + back);
                assert(self.secs as int == 86_400 * (-q - 1) + (86_399 - back));
                vstd::arithmetic::div_mod::lemma_fundamental_div_mod_converse(
                    self.secs as int,
                    86_400,
                    -q - 1,
                    86_399 - back,
                );
            }
            86_399 - back
        }
    }

    /// The time of day in UTC, as `HH:MM:SS`.
    pub fn clock_text(&self) -> (text: String)
        ensures
            text@ == clock_text(*self),
    {
        let s = self.second_of_day();
        let mut text = String::new();
        push_two_digits(&mut text, s / 3_600);
        text.append(":");
        push_two_digits(&mut text, (s / 60) % 60);
        text.append(":");
        push_two_digits(&mut text, s % 60);
        assert(text@ =~= clock_text(*self));
        text
    }
}

} // verus!
