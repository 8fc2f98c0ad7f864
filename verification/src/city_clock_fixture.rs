//! The city-clock conformance document: hand-typed `(epoch, now) -> city
//! time` rows that [`crate::time`] and the client's own clock are both
//! checked against. The expected values are typed by hand from the clock's
//! constants, never computed by the functions under test. Instants are
//! microseconds since the Unix epoch, carried as decimal strings so no
//! JSON reader rounds them.

use vstd::prelude::*;
use crate::time::REAL_MS_PER_CITY_MINUTE;
use crate::text::decimal;

verus! {

/// One conformance row as written in the document.
#[derive(Debug, Clone)]
pub struct ClockCase {
    pub epoch_micros: String,
    pub now_micros: String,
    pub day: i64,
    pub hour: u8,
    pub minute: u8,
    pub weekday: u8,
    pub real_ms_into_minute: u16,
}

/// The whole document: the clock's rate and every row.
#[derive(Debug, Clone)]
pub struct ClockFixture {
    pub real_ms_per_city_minute: i64,
    pub cases: Vec<ClockCase>,
}

/// One hand-typed row: an epoch, the microseconds on top of whole
/// milliseconds, the milliseconds elapsed, and the expected city time
/// `(day, hour, minute, weekday, real_ms_into_minute)`.
#[derive(Debug, Clone, Copy, PartialEq, Eq, Structural)]
pub struct ClockRow {
    pub epoch: i64,
    pub extra_micros: i64,
    pub elapsed_ms: i64,
    pub day: i64,
    pub hour: u8,
    pub minute: u8,
    pub weekday: u8,
    pub real_ms_into_minute: u16,
}

/// An epoch that is not aligned to any second, minute or day boundary.
pub const ODD_EPOCH: i64 = 1_700_000_000_123_456;

pub open spec fn row(epoch: int, extra: int, elapsed: int, day: int, hour: int, minute: int, weekday: int, into: int) -> ClockRow {
    ClockRow {
        epoch: epoch as i64,
        extra_micros: extra as i64,
        elapsed_ms: elapsed as i64,
        day: day as i64,
        hour: hour as u8,
        minute: minute as u8,
        weekday: weekday as u8,
        real_ms_into_minute: into as u16,
    }
}

/// The hand-typed rows: both sides of each boundary (a minute, an hour, a
/// day, the week), large instants, pre-epoch instants and an odd epoch.
pub open spec fn spec_clock_rows() -> Seq<ClockRow> {
    seq![
        row(0, 0, 0, 0, 0, 0, 0, 0),
        row(0, 0, 2_499, 0, 0, 0, 0, 2499),
        row(0, 0, 2_500, 0, 0, 1, 0, 0),
        row(0, 0, 150_000, 0, 1, 0, 0, 0),
        row(0, 0, 3_599_999, 0, 23, 59, 0, 2499),
        row(0, 0, 3_600_000, 1, 0, 0, 1, 0),
        row(0, 0, 25_200_000, 7, 0, 0, 0, 0),
        row(0, 0, 2_147_483_648, 596, 12, 33, 1, 1148),
        row(0, 0, 4_294_967_296, 1193, 1, 6, 3, 2296),
        row(0, 0, 1_099_511_627_776, 305_419, 21, 31, 2, 276),
        row(0, 0, -1, -1, 23, 59, 6, 2499),
        row(0, 0, -2_500, -1, 23, 59, 6, 0),
        row(0, 0, -3_600_000, -1, 0, 0, 6, 0),
        row(0, 0, -3_600_001, -2, 23, 59, 5, 2499),
        row(ODD_EPOCH as int, 999, 150_000, 0, 1, 0, 0, 0),
        row(ODD_EPOCH as int, 0, (3_600_000 * 3 + 2_500 * 61 + 7) as int, 3, 1, 1, 3, 7),
    ]
}

fn push_row(v: &mut Vec<ClockRow>, epoch: i64, extra: i64, elapsed: i64, day: i64, hour: u8, minute: u8, weekday: u8, into: u16)
    ensures
        final(v)@ == old(v)@.push(row(epoch as int, extra as int, elapsed as int, day as int, hour as int, minute as int, weekday as int, into as int)),
{
    v.push(ClockRow { epoch, extra_micros: extra, elapsed_ms: elapsed, day, hour, minute, weekday, real_ms_into_minute: into });
}

/// The hand-typed rows, in order.
pub fn clock_rows() -> (v: Vec<ClockRow>)
    ensures
        v@ == spec_clock_rows(),
{
    let mut v: Vec<ClockRow> = Vec::new();
    push_row(&mut v, 0, 0, 0, 0, 0, 0, 0, 0);
    push_row(&mut v, 0, 0, 2_499, 0, 0, 0, 0, 2499);
    push_row(&mut v, 0, 0, 2_500, 0, 0, 1, 0, 0);
    push_row(&mut v, 0, 0, 150_000, 0, 1, 0, 0, 0);
    push_row(&mut v, 0, 0, 3_599_999, 0, 23, 59, 0, 2499);
    push_row(&mut v, 0, 0, 3_600_000, 1, 0, 0, 1, 0);
    push_row(&mut v, 0, 0, 25_200_000, 7, 0, 0, 0, 0);
    push_row(&mut v, 0, 0, 2_147_483_648, 596, 12, 33, 1, 1148);
    push_row(&mut v, 0, 0, 4_294_967_296, 1193, 1, 6, 3, 2296);
    push_row(&mut v, 0, 0, 1_099_511_627_776, 305_419, 21, 31, 2, 276);
    push_row(&mut v, 0, 0, -1, -1, 23, 59, 6, 2499);
    push_row(&mut v, 0, 0, -2_500, -1, 23, 59, 6, 0);
    push_row(&mut v, 0, 0, -3_600_000, -1, 0, 0, 6, 0);
    push_row(&mut v, 0, 0, -3_600_001, -2, 23, 59, 5, 2499);
    push_row(&mut v, ODD_EPOCH, 999, 150_000, 0, 1, 0, 0, 0);
    push_row(&mut v, ODD_EPOCH, 0, 3_600_000 * 3 + 2_500 * 61 + 7, 3, 1, 1, 3, 7);
    assert(v@ =~= spec_clock_rows());
    v
}

/// `v` written in decimal.
///
/// Calls `<i128 as ToString>::to_string`; the contract claims what std
/// documents of an integer's `Display`: its decimal digits, no leading
/// zeros, with a leading `-` when negative.
#[verifier::external_body]
fn decimal_string(v: i128) -> (s: String)
    ensures
        s@ == decimal(v as int),
{
    v.to_string()
}

/// A row's "now": the epoch plus the elapsed milliseconds and the extra
/// microseconds.
pub open spec fn now_of(r: ClockRow) -> int {
    r.epoch + r.elapsed_ms * 1000 + r.extra_micros
}

/// `c` is how the document writes row `r`.
pub open spec fn written_as(c: ClockCase, r: ClockRow) -> bool {
    &&& c.epoch_micros@ == decimal(r.epoch as int)
    &&& c.now_micros@ == decimal(now_of(r))
    &&& c.day == r.day
    &&& c.hour == r.hour
    &&& c.minute == r.minute
    &&& c.weekday == r.weekday
    &&& c.real_ms_into_minute == r.real_ms_into_minute
}

/// The document for `rows`: the clock's rate and each row written out.
pub fn fixture_from_rows(rows: &[ClockRow]) -> (f: ClockFixture)
    ensures
        f.real_ms_per_city_minute == REAL_MS_PER_CITY_MINUTE,
        f.cases@.len() == rows@.len(),
        forall|i: int| 0 <= i < rows@.len() ==> written_as(#[trigger] f.cases@[i], rows@[i]),
{
    let mut cases: Vec<ClockCase> = Vec::new();
    let mut i: usize = 0;
    while i < rows.len()
        invariant
            i <= rows.len(),
            cases@.len() == i,
            forall|k: int| 0 <= k < i ==> written_as(#[trigger] cases@[k], rows@[k]),
        decreases rows.len() - i,
    {
        let r = rows[i];
        let now = r.epoch as i128 + r.elapsed_ms as i128 * 1000 + r.extra_micros as i128;
        let c = ClockCase {
            epoch_micros: decimal_string(r.epoch as i128),
            now_micros: decimal_string(now),
            day: r.day,
            hour: r.hour,
            minute: r.minute,
            weekday: r.weekday,
            real_ms_into_minute: r.real_ms_into_minute,
        };
        cases.push(c);
        i += 1;
    }
    ClockFixture { real_ms_per_city_minute: REAL_MS_PER_CITY_MINUTE, cases }
}

/// The city-clock conformance document, from the hand-typed rows.
pub fn build_fixture_document() -> (f: ClockFixture)
    ensures
        f.real_ms_per_city_minute == REAL_MS_PER_CITY_MINUTE,
        f.cases@.len() == spec_clock_rows().len(),
        forall|i: int| 0 <= i < spec_clock_rows().len() ==> written_as(#[trigger] f.cases@[i], spec_clock_rows()[i]),
{
    let rows = clock_rows();
    fixture_from_rows(rows.as_slice())
}

} // verus!
