//! The telemetry record and its decoding from one frame of the device's
//! stream.
use vstd::prelude::*;
use crate::decimal::{int_value, fixed_value, parse_int, parse_fixed};
use crate::text::{views, row_view, row_chars, string_of};
use crate::records::{csv_records_of, records_view, read_records};

verus! {

/// Number of columns that a telemetry row carries; columns after these are
/// ignored.
pub const FIELD_COUNT: usize = 20;

/// One telemetry record. Decimal quantities are fixed-point integers:
/// tenths for altitudes, temperature, pressure and voltage; ten-thousandths
/// of a degree for latitude and longitude; hundredths of a degree for tilts.
#[derive(Clone, Debug)]
pub struct Telemetry {
    pub team_id: i32,
    pub mission_time: String,
    pub packet_count: i32,
    pub mode: String,
    pub state: String,
    pub altitude: i64,
    pub hs_deployed: String,
    pub pc_deployed: String,
    pub mast_raised: String,
    pub temperature: i64,
    pub pressure: i64,
    pub voltage: i64,
    pub gps_time: String,
    pub gps_altitude: i64,
    pub gps_latitude: i64,
    pub gps_longitude: i64,
    pub gps_sats: i32,
    pub tilt_x: i64,
    pub tilt_y: i64,
    pub cmd_echo: String,
}

/// Why a row was not decoded.
#[derive(Clone, Copy, Debug, PartialEq, Eq, Structural)]
pub enum DecodeError {
    /// The row has fewer columns than a record has fields.
    TooFewFields { found: usize },
    /// The column does not hold a number of its declared type.
    BadNumber { column: usize },
    /// The CSV reader could not read the row.
    Unreadable,
}

/// What became of one row of a frame.
#[derive(Clone, Debug)]
pub enum Decoded {
    Accepted(Telemetry),
    Rejected(DecodeError),
    /// A well-formed record of a team other than the one configured.
    OtherTeam(i32),
}

pub open spec fn is_int_column(i: int) -> bool {
    i == 0 || i == 2 || i == 16
}

/// Digits after the point of a decimal column; zero for the other columns.
pub open spec fn fixed_precision(i: int) -> nat {
    if i == 5 || i == 9 || i == 10 || i == 11 || i == 13 {
        1
    } else if i == 14 || i == 15 {
        4
    } else if i == 17 || i == 18 {
        2
    } else {
        0
    }
}

pub open spec fn column_ok(c: Seq<char>, i: int) -> bool {
    if is_int_column(i) {
        int_value(c) is Some
    } else if fixed_precision(i) > 0 {
        fixed_value(c, fixed_precision(i)) is Some
    } else {
        true
    }
}

/// A row that decodes: enough columns, and each numeric one well-formed.
pub open spec fn row_valid(cols: Seq<Seq<char>>) -> bool {
    &&& cols.len() >= FIELD_COUNT
    &&& forall|i: int| 0 <= i < FIELD_COUNT ==> #[trigger] column_ok(cols[i], i)
}

pub open spec fn int_at(cols: Seq<Seq<char>>, i: int) -> int {
    int_value(cols[i])->Some_0
}

pub open spec fn fixed_at(cols: Seq<Seq<char>>, i: int) -> int {
    fixed_value(cols[i], fixed_precision(i))->Some_0
}

/// `t` holds the values that the columns of the row denote.
pub open spec fn decodes_to(cols: Seq<Seq<char>>, t: Telemetry) -> bool {
    &&& t.team_id == int_at(cols, 0)
    &&& t.mission_time@ == cols[1]
    &&& t.packet_count == int_at(cols, 2)
    &&& t.mode@ == cols[3]
    &&& t.state@ == cols[4]
    &&& t.altitude == fixed_at(cols, 5)
    &&& t.hs_deployed@ == cols[6]
    &&& t.pc_deployed@ == cols[7]
    &&& t.mast_raised@ == cols[8]
    &&& t.temperature == fixed_at(cols, 9)
    &&& t.pressure == fixed_at(cols, 10)
    &&& t.voltage == fixed_at(cols, 11)
    &&& t.gps_time@ == cols[12]
    &&& t.gps_altitude == fixed_at(cols, 13)
    &&& t.gps_latitude == fixed_at(cols, 14)
    &&& t.gps_longitude == fixed_at(cols, 15)
    &&& t.gps_sats == int_at(cols, 16)
    &&& t.tilt_x == fixed_at(cols, 17)
    &&& t.tilt_y == fixed_at(cols, 18)
    &&& t.cmd_echo@ == cols[19]
}

/// The error fits the row: a short row is reported with its length, a bad
/// number with a numeric column that does not parse.
pub open spec fn error_fits(cols: Seq<Seq<char>>, e: DecodeError) -> bool {
    match e {
        DecodeError::TooFewFields { found } => cols.len() < FIELD_COUNT && found == cols.len(),
        DecodeError::BadNumber { column } => {
            &&& cols.len() >= FIELD_COUNT
            &&& column < FIELD_COUNT
            &&& !column_ok(cols[column as int], column as int)
        },
        DecodeError::Unreadable => false,
    }
}

fn int_column(cols: &Vec<Vec<char>>, i: usize) -> (r: Result<i32, DecodeError>)
    requires
        i < cols@.len(),
        is_int_column(i as int),
    ensures
        r matches Ok(v) ==> int_value(cols@[i as int]@) == Some(v as int),
        r matches Err(e) ==> e == (DecodeError::BadNumber { column: i }) && int_value(
            cols@[i as int]@,
        ) is None,
{
    match parse_int(&cols[i]) {
        Some(v) => Ok(v),
        None => Err(DecodeError::BadNumber { column: i }),
    }
}

fn fixed_column(cols: &Vec<Vec<char>>, i: usize, p: usize) -> (r: Result<i64, DecodeError>)
    requires
        i < cols@.len(),
        p == fixed_precision(i as int),
        p > 0,
    ensures
        r matches Ok(v) ==> fixed_value(cols@[i as int]@, p as nat) == Some(v as int),
        r matches Err(e) ==> e == (DecodeError::BadNumber { column: i }) && fixed_value(
            cols@[i as int]@,
            p as nat,
        ) is None,
{
    match parse_fixed(&cols[i], p) {
        Some(v) => Ok(v),
        None => Err(DecodeError::BadNumber { column: i }),
    }
}

/// Decodes the columns of one row into a record.
pub fn decode_row(row: &Vec<String>) -> (r: Result<Telemetry, DecodeError>)
    ensures
        r is Ok <==> row_valid(row_view(row@)),
        r matches Ok(t) ==> decodes_to(row_view(row@), t),
        r matches Err(e) ==> error_fits(row_view(row@), e),
{
    decode_columns(&row_chars(row))
}

fn decode_columns(cols: &Vec<Vec<char>>) -> (r: Result<Telemetry, DecodeError>)
    ensures
        r is Ok <==> row_valid(views(cols@)),
        r matches Ok(t) ==> decodes_to(views(cols@), t),
        r matches Err(e) ==> error_fits(views(cols@), e),
{
    let ghost c = views(cols@);
    assert forall|i: int| 0 <= i < cols@.len() implies #[trigger] c[i] == cols@[i]@ by {}
    if cols.len() < FIELD_COUNT {
        return Err(DecodeError::TooFewFields { found: cols.len() });
    }
    let team_id = match int_column(cols, 0) {
        Ok(v) => v,
        Err(e) => {
            assert(!column_ok(c[0], 0));
            return Err(e);
        },
    };
    let packet_count = match int_column(cols, 2) {
        Ok(v) => v,
        Err(e) => {
            assert(!column_ok(c[2], 2));
            return Err(e);
        },
    };
    let altitude = match fixed_column(cols, 5, 1) {
        Ok(v) => v,
        Err(e) => {
            assert(!column_ok(c[5], 5));
            return Err(e);
        },
    };
    let temperature = match fixed_column(cols, 9, 1) {
        Ok(v) => v,
        Err(e) => {
            assert(!column_ok(c[9], 9));
            return Err(e);
        },
    };
    let pressure = match fixed_column(cols, 10, 1) {
        Ok(v) => v,
        Err(e) => {
            assert(!column_ok(c[10], 10));
            return Err(e);
        },
    };
    let voltage = match fixed_column(cols, 11, 1) {
        Ok(v) => v,
        Err(e) => {
            assert(!column_ok(c[11], 11));
            return Err(e);
        },
    };
    let gps_altitude = match fixed_column(cols, 13, 1) {
        Ok(v) => v,
        Err(e) => {
            assert(!column_ok(c[13], 13));
            return Err(e);
        },
    };
    let gps_latitude = match fixed_column(cols, 14, 4) {
        Ok(v) => v,
        Err(e) => {
            assert(!column_ok(c[14], 14));
            return Err(e);
        },
    };
    let gps_longitude = match fixed_column(cols, 15, 4) {
        Ok(v) => v,
        Err(e) => {
            assert(!column_ok(c[15], 15));
            return Err(e);
        },
    };
    let gps_sats = match int_column(cols, 16) {
        Ok(v) => v,
        Err(e) => {
            assert(!column_ok(c[16], 16));
            return Err(e);
        },
    };
    let tilt_x = match fixed_column(cols, 17, 2) {
        Ok(v) => v,
        Err(e) => {
            assert(!column_ok(c[17], 17));
            return Err(e);
        },
    };
    let tilt_y = match fixed_column(cols, 18, 2) {
        Ok(v) => v,
        Err(e) => {
            assert(!column_ok(c[18], 18));
            return Err(e);
        },
    };
    assert forall|i: int| 0 <= i < FIELD_COUNT implies #[trigger] column_ok(c[i], i) by {}
    Ok(Telemetry {
        team_id,
        mission_time: string_of(&cols[1]),
        packet_count,
        mode: string_of(&cols[3]),
        state: string_of(&cols[4]),
        altitude,
        hs_deployed: string_of(&cols[6]),
        pc_deployed: string_of(&cols[7]),
        mast_raised: string_of(&cols[8]),
        temperature,
        pressure,
        voltage,
        gps_time: string_of(&cols[12]),
        gps_altitude,
        gps_latitude,
        gps_longitude,
        gps_sats,
        tilt_x,
        tilt_y,
        cmd_echo: string_of(&cols[19]),
    })
}


/// Each byte read as the character of the same code, as the device sends
/// plain ASCII.
pub open spec fn latin1(b: Seq<u8>) -> Seq<char> {
    b.map_values(|x: u8| x as char)
}

/// The rows of a frame, as the CSV reader finds them.
pub open spec fn frame_rows(frame: Seq<u8>) -> Seq<Option<Seq<Seq<char>>>> {
    csv_records_of(latin1(frame))
}

/// `d` is what decoding `row` gives when `target` is the configured team.
pub open spec fn outcome_of(row: Option<Seq<Seq<char>>>, target: i32, d: Decoded) -> bool {
    match row {
        None => d == Decoded::Rejected(DecodeError::Unreadable),
        Some(cols) => match d {
            Decoded::Accepted(t) => row_valid(cols) && decodes_to(cols, t) && t.team_id == target,
            Decoded::OtherTeam(id) => row_valid(cols) && int_at(cols, 0) == id && id != target,
            Decoded::Rejected(e) => !row_valid(cols) && error_fits(cols, e),
        },
    }
}

/// The accepted records among the outcomes, in order.
pub open spec fn accepted(d: Seq<Decoded>) -> Seq<Telemetry>
    decreases d.len(),
{
    if d.len() == 0 {
        Seq::empty()
    } else {
        match d.last() {
            Decoded::Accepted(t) => accepted(d.drop_last()).push(t),
            _ => accepted(d.drop_last()),
        }
    }
}

fn latin1_chars(b: &Vec<u8>) -> (r: Vec<char>)
    ensures
        r@ == latin1(b@),
{
    let mut out: Vec<char> = Vec::new();
    let mut i: usize = 0;
    while i < b.len()
        invariant
            i <= b@.len(),
            out@ == latin1(b@.take(i as int)),
        decreases b@.len() - i,
    {
        out.push(b[i] as char);
        i = i + 1;
        assert(out@ =~= latin1(b@.take(i as int)));
    }
    assert(b@.take(i as int) =~= b@);
    out
}

/// Decodes one row as the CSV reader gave it and applies the team filter.
pub fn decode_line(row: &Option<Vec<String>>, target_team: i32) -> (r: Decoded)
    ensures
        outcome_of(record_view_of(row), target_team, r),
{
    match row {
        None => Decoded::Rejected(DecodeError::Unreadable),
        Some(cols) => match decode_row(cols) {
            Ok(t) => {
                if t.team_id == target_team {
                    Decoded::Accepted(t)
                } else {
                    Decoded::OtherTeam(t.team_id)
                }
            },
            Err(e) => Decoded::Rejected(e),
        },
    }
}

pub open spec fn record_view_of(r: &Option<Vec<String>>) -> Option<Seq<Seq<char>>> {
    crate::records::record_view(*r)
}

/// Decodes every row of a frame, in order. A malformed row yields
/// `Rejected` and leaves the other rows unaffected.
pub fn decode_frame(frame: &Vec<u8>, target_team: i32) -> (r: Vec<Decoded>)
    ensures
        r@.len() == frame_rows(frame@).len(),
        forall|i: int|
            0 <= i < r@.len() ==> outcome_of(#[trigger] frame_rows(frame@)[i], target_team, r@[i]),
{
    let text = string_of(&latin1_chars(frame));
    let rows = read_records(text.as_str());
    let ghost all = records_view(rows@);
    assert(all == frame_rows(frame@));
    let mut out: Vec<Decoded> = Vec::new();
    let mut k: usize = 0;
    while k < rows.len()
        invariant
            k <= rows@.len(),
            all == records_view(rows@),
            out@.len() == k,
            forall|i: int| 0 <= i < k ==> outcome_of(#[trigger] all[i], target_team, out@[i]),
        decreases rows@.len() - k,
    {
        out.push(decode_line(&rows[k], target_team));
        assert(all[k as int] == crate::records::record_view(rows@[k as int]));
        k = k + 1;
    }
    out
}

} // verus!
