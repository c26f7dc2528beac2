//! `NovaTimestamp`: milliseconds since the Unix epoch, with an exact
//! proleptic-Gregorian ISO-8601 rendering.
use vstd::prelude::*;
use vstd::arithmetic::div_mod::{lemma_fundamental_div_mod, lemma_fundamental_div_mod_converse};

use crate::entropy;
use crate::text::{padded_decimal, push_char, push_padded};

verus! {

/// Milliseconds in a day, an hour, a minute and a second.
pub const MS_PER_DAY: i64 = 86_400_000;

pub const MS_PER_HOUR: i64 = 3_600_000;

pub const MS_PER_MINUTE: i64 = 60_000;

pub const MS_PER_SECOND: i64 = 1_000;

/// A timestamp measured in milliseconds since the Unix epoch; timestamps
/// compare by their milliseconds.
#[derive(Debug, Copy, Clone, PartialEq, Eq, PartialOrd, Ord, Hash)]
pub struct NovaTimestamp {
    millis: i64,
}

impl View for NovaTimestamp {
    type V = i64;

    closed spec fn view(&self) -> i64 {
        self.millis
    }
}

/// Days since 1970-01-01 to a proleptic-Gregorian `(year, month, day)`
/// (Howard Hinnant's civil-from-days algorithm; `/` and `%` are floor
/// division and its remainder).
pub open spec fn civil_from_days(days: int) -> (int, int, int) {
    let z = days + 719_468;
    let era = z / 146_097;
    let doe = z - era * 146_097;
    let yoe = (doe - doe / 1_460 + doe / 36_524 - doe / 146_096) / 365;
    let year = yoe + era * 400;
    let doy = doe - (365 * yoe + yoe / 4 - yoe / 100);
    let mp = (5 * doy + 2) / 153;
    let day = doy - (153 * mp + 2) / 5 + 1;
    let month = if mp < 10 { mp + 3 } else { mp - 9 };
    (if month <= 2 { year + 1 } else { year }, month, day)
}

/// `YYYY-MM-DDTHH:MM:SS.mmmZ` for a millisecond instant.
pub open spec fn iso8601(millis: int) -> Seq<char> {
    let days = millis / (MS_PER_DAY as int);
    let rem = millis % (MS_PER_DAY as int);
    let (y, m, d) = civil_from_days(days);
    padded_decimal(y, 4) + seq!['-'] + padded_decimal(m, 2) + seq!['-'] + padded_decimal(d, 2)
        + seq!['T'] + padded_decimal(rem / 3_600_000, 2) + seq![':'] + padded_decimal(
        rem / 60_000 % 60,
        2,
    ) + seq![':'] + padded_decimal(rem / 1_000 % 60, 2) + seq!['.'] + padded_decimal(
        rem % 1_000,
        3,
    ) + seq!['Z']
}

/// Floor division and its non-negative remainder.
fn floor_div_mod(a: i128, d: i128) -> (r: (i128, i128))
    requires
        d > 0,
        d < 0x1_0000_0000,
        -0x1_0000_0000_0000_0000_0000 < a < 0x1_0000_0000_0000_0000_0000,
    ensures
        r.0 == a as int / d as int,
        r.1 == a as int % d as int,
{
    if a >= 0 {
        let q = a / d;
        let r = a % d;
        proof {
            lemma_fundamental_div_mod(a as int, d as int);
        }
        (q, r)
    } else {
        let t = (-a + d - 1) / d;
        let s = (-a + d - 1) % d;
        proof {
            lemma_fundamental_div_mod((-a + d - 1) as int, d as int);
            assert(t == (-a + d - 1) as int / d as int);
            assert(s == (-a + d - 1) as int % d as int);
            assert(-a + d - 1 == d * t + s);
            assert(d * t == t * d) by (nonlinear_arith);
            assert(-a + d - 1 == t * d + s);
            assert(0 <= s < d);
            assert(a as int == (-t) * d + (d - 1 - s)) by (nonlinear_arith)
                requires
                    -a + d - 1 == t * d + s,
            ;
            lemma_fundamental_div_mod_converse(a as int, d as int, -t as int, (d - 1 - s) as int);
        }
        (-t, d - 1 - s)
    }
}

/// Computes `civil_from_days`.
fn civil(days: i128) -> (r: (i128, i128, i128))
    requires
        -0x1_0000_0000_0000 < days < 0x1_0000_0000_0000,
    ensures
        r == (civil_from_days(days as int).0 as i128, civil_from_days(days as int).1 as i128,
            civil_from_days(days as int).2 as i128),
        -0x1_0000_0000_0000 < civil_from_days(days as int).0 < 0x1_0000_0000_0000,
        1 <= civil_from_days(days as int).1 <= 12,
        1 <= civil_from_days(days as int).2 <= 31,
{
    let z = days + 719_468;
    let (era, doe) = floor_div_mod(z, 146_097);
    proof {
        lemma_fundamental_div_mod(z as int, 146_097);
        assert(doe == z - era * 146_097);
        assert(-0x1_0000_0000_0000 <= era <= 0x1_0000_0000_0000) by (nonlinear_arith)
            requires
                z == era * 146_097 + doe,
                0 <= doe < 146_097,
                -0x1_0000_0000_0000 + 719_468 < z < 0x1_0000_0000_0000 + 719_468,
        ;
    }
    let yoe = (doe - doe / 1_460 + doe / 36_524 - doe / 146_096) / 365;
    assert(0 <= yoe <= 399) by (nonlinear_arith)
        requires
            0 <= doe < 146_097,
            yoe == (doe - doe / 1_460 + doe / 36_524 - doe / 146_096) / 365,
    ;
    let year = yoe + era * 400;
    let doy = doe - (365 * yoe + yoe / 4 - yoe / 100);
    assert(0 <= doy <= 365) by (nonlinear_arith)
        requires
            0 <= doe < 146_097,
            yoe == (doe - doe / 1_460 + doe / 36_524 - doe / 146_096) / 365,
            doy == doe - (365 * yoe + yoe / 4 - yoe / 100),
    ;
    let mp = (5 * doy + 2) / 153;
    let day = doy - (153 * mp + 2) / 5 + 1;
    assert(0 <= mp <= 11 && 1 <= day <= 31) by (nonlinear_arith)
        requires
            0 <= doy <= 365,
            mp == (5 * doy + 2) / 153,
            day == doy - (153 * mp + 2) / 5 + 1,
    ;
    let month = if mp < 10 {
        mp + 3
    } else {
        mp - 9
    };
    (if month <= 2 {
        year + 1
    } else {
        year
    }, month, day)
}

impl NovaTimestamp {
    /// The current wall-clock time; the epoch itself when the clock reads
    /// before the epoch, `i64::MAX` milliseconds when it reads beyond.
    pub fn now() -> (r: NovaTimestamp)
        ensures
            r@ >= 0,
    {
        NovaTimestamp::from_reading(entropy::system_millis())
    }

    /// The timestamp of a clock reading in milliseconds since the epoch:
    /// the epoch itself for a reading before the epoch, `i64::MAX`
    /// milliseconds for one beyond what an `i64` holds.
    pub fn from_reading(reading: Option<u128>) -> (r: NovaTimestamp)
        ensures
            r@ == match reading {
                Some(m) => if m > i64::MAX { i64::MAX } else { m as i64 },
                None => 0i64,
            },
            r@ >= 0,
    {
        let millis: i64 = match reading {
            Some(m) => if m > i64::MAX as u128 {
                i64::MAX
            } else {
                m as i64
            },
            None => 0,
        };
        NovaTimestamp { millis }
    }

    /// Builds a timestamp from raw Unix epoch milliseconds.
    pub fn from_millis(millis: i64) -> (r: NovaTimestamp)
        ensures
            r@ == millis,
    {
        NovaTimestamp { millis }
    }

    /// The raw Unix epoch milliseconds.
    pub fn millis(&self) -> (r: i64)
        ensures
            r == self@,
    {
        self.millis
    }

    /// Formats this timestamp as ISO-8601 UTC: `YYYY-MM-DDTHH:MM:SS.mmmZ`.
    pub fn to_iso8601(&self) -> (r: String)
        ensures
            r@ == iso8601(self@ as int),
    {
        let (days, rem) = floor_div_mod(self.millis as i128, MS_PER_DAY as i128);
        proof {
            lemma_fundamental_div_mod(self.millis as int, MS_PER_DAY as int);
            assert(-0x1_0000_0000_0000 < days < 0x1_0000_0000_0000) by (nonlinear_arith)
                requires
                    self.millis == days * 86_400_000 + rem,
                    0 <= rem < 86_400_000,
                    i64::MIN <= self.millis <= i64::MAX,
            ;
        }
        let (year, month, day) = civil(days);
        let mut out = String::new();
        push_padded(&mut out, year, 4);
        push_char(&mut out, '-');
        push_padded(&mut out, month, 2);
        push_char(&mut out, '-');
        push_padded(&mut out, day, 2);
        push_char(&mut out, 'T');
        push_padded(&mut out, rem / 3_600_000, 2);
        push_char(&mut out, ':');
        push_padded(&mut out, rem / 60_000 % 60, 2);
        push_char(&mut out, ':');
        push_padded(&mut out, rem / 1_000 % 60, 2);
        push_char(&mut out, '.');
        push_padded(&mut out, rem % 1_000, 3);
        push_char(&mut out, 'Z');
        assert(out@ =~= iso8601(self@ as int));
        out
    }

    /// The display form: the ISO-8601 rendering.
    pub fn to_string(&self) -> (r: String)
        ensures
            r@ == iso8601(self@ as int),
    {
        self.to_iso8601()
    }

    /// The debug form: `NovaTimestamp(` ISO-8601 `)`.
    pub fn debug_string(&self) -> (r: String)
        ensures
            r@ == seq!['N', 'o', 'v', 'a', 'T', 'i', 'm', 'e', 's', 't', 'a', 'm', 'p', '(']
                + iso8601(self@ as int) + seq![')'],
    {
        let mut out = String::new();
        crate::text::push_str(&mut out, "NovaTimestamp(");
        let iso = self.to_iso8601();
        crate::text::push_str(&mut out, iso.as_str());
        push_char(&mut out, ')');
        proof {
            reveal_strlit("NovaTimestamp(");
        }
        assert(out@ =~= seq!['N', 'o', 'v', 'a', 'T', 'i', 'm', 'e', 's', 't', 'a', 'm', 'p', '(']
            + iso8601(self@ as int) + seq![')']);
        out
    }
}

} // verus!
