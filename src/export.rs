//! The CSV artifact: one header row and one row per record, with each
//! decimal column at its fixed precision.
use vstd::prelude::*;
use crate::decimal::{int_text, fixed_text, format_int, format_fixed, zero_padded, format_zero_padded};
use crate::telemetry::{Telemetry, row_valid, decodes_to, is_int_column, fixed_precision, column_ok};
use crate::decimal::{int_value, fixed_value, abs, SCALED_LIMIT, lemma_int_round_trip, lemma_fixed_round_trip};
use crate::text::{string_of, chars_of, row_view};

verus! {

/// What the CSV writer produces for the given rows.
pub uninterp spec fn csv_encoding(rows: Seq<Seq<Seq<char>>>) -> Seq<u8>;

pub open spec fn table_view(rows: Seq<Vec<String>>) -> Seq<Seq<Seq<char>>> {
    rows.map_values(|r: Vec<String>| row_view(r@))
}

/// Why an export failed.
#[derive(Clone, Copy, Debug, PartialEq, Eq, Structural)]
pub enum ExportError {
    /// The CSV writer reported an error.
    Encoding,
}

/// Relies on `csv::Writer` over an in-memory buffer: writes each row as one
/// record, in order, and hands back the bytes. Rows of any length are
/// accepted (`flexible`).
#[verifier::external_body]
fn encode_csv(rows: &Vec<Vec<String>>) -> (r: Option<Vec<u8>>)
    ensures
        r is Some,
        r matches Some(b) ==> b@ == csv_encoding(table_view(rows@)),
{
    let mut writer = csv::WriterBuilder::new().flexible(true).from_writer(Vec::new());
    for row in rows {
        if writer.write_record(row).is_err() {
            return None;
        }
    }
    writer.into_inner().ok()
}

pub open spec fn header_row() -> Seq<Seq<char>> {
    seq![
        "team_id"@, "mission_time"@, "packet_count"@, "mode"@, "state"@, "altitude"@,
        "hs_deployed"@, "pc_deployed"@, "mast_raised"@, "temperature"@, "pressure"@,
        "voltage"@, "gps_time"@, "gps_altitude"@, "gps_latitude"@, "gps_longitude"@,
        "gps_sats"@, "tilt_x"@, "tilt_y"@, "cmd_echo"@,
    ]
}

/// The text row of a record: integers plainly, altitudes, temperature,
/// pressure and voltage with one decimal, latitude and longitude with four,
/// tilts with two.
pub open spec fn record_row(t: Telemetry) -> Seq<Seq<char>> {
    seq![
        int_text(t.team_id as int), t.mission_time@, int_text(t.packet_count as int), t.mode@,
        t.state@, fixed_text(t.altitude as int, 1), t.hs_deployed@, t.pc_deployed@,
        t.mast_raised@, fixed_text(t.temperature as int, 1), fixed_text(t.pressure as int, 1),
        fixed_text(t.voltage as int, 1), t.gps_time@, fixed_text(t.gps_altitude as int, 1),
        fixed_text(t.gps_latitude as int, 4), fixed_text(t.gps_longitude as int, 4),
        int_text(t.gps_sats as int), fixed_text(t.tilt_x as int, 2), fixed_text(t.tilt_y as int, 2),
        t.cmd_echo@,
    ]
}

/// The whole table: the header, then one row per record in order.
pub open spec fn export_rows(history: Seq<Telemetry>) -> Seq<Seq<Seq<char>>> {
    seq![header_row()] + history.map_values(|t: Telemetry| record_row(t))
}

/// The header row, naming the columns.
pub fn header_cells() -> (r: Vec<String>)
    ensures
        row_view(r@) == header_row(),
{
    let r = vec![
        "team_id".to_string(), "mission_time".to_string(), "packet_count".to_string(),
        "mode".to_string(), "state".to_string(), "altitude".to_string(),
        "hs_deployed".to_string(), "pc_deployed".to_string(), "mast_raised".to_string(),
        "temperature".to_string(), "pressure".to_string(), "voltage".to_string(),
        "gps_time".to_string(), "gps_altitude".to_string(), "gps_latitude".to_string(),
        "gps_longitude".to_string(), "gps_sats".to_string(), "tilt_x".to_string(),
        "tilt_y".to_string(), "cmd_echo".to_string(),
    ];
    assert(row_view(r@) =~= header_row());
    r
}

fn text_copy(s: &String) -> (r: String)
    ensures
        r@ == s@,
{
    s.clone()
}

/// The text row of one record.
pub fn format_record(t: &Telemetry) -> (r: Vec<String>)
    ensures
        row_view(r@) == record_row(*t),
{
    let r = vec![
        string_of(&format_int(t.team_id as i64)), text_copy(&t.mission_time),
        string_of(&format_int(t.packet_count as i64)), text_copy(&t.mode), text_copy(&t.state),
        string_of(&format_fixed(t.altitude, 1)), text_copy(&t.hs_deployed),
        text_copy(&t.pc_deployed), text_copy(&t.mast_raised),
        string_of(&format_fixed(t.temperature, 1)), string_of(&format_fixed(t.pressure, 1)),
        string_of(&format_fixed(t.voltage, 1)), text_copy(&t.gps_time),
        string_of(&format_fixed(t.gps_altitude, 1)), string_of(&format_fixed(t.gps_latitude, 4)),
        string_of(&format_fixed(t.gps_longitude, 4)), string_of(&format_int(t.gps_sats as i64)),
        string_of(&format_fixed(t.tilt_x, 2)), string_of(&format_fixed(t.tilt_y, 2)),
        text_copy(&t.cmd_echo),
    ];
    assert(row_view(r@) =~= record_row(*t));
    r
}

/// The table that an export writes for `history`.
pub fn export_table(history: &Vec<Telemetry>) -> (r: Vec<Vec<String>>)
    ensures
        table_view(r@) == export_rows(history@),
{
    let r = export_table_range(history, 0, history.len());
    assert(history@.subrange(0, history@.len() as int) =~= history@);
    r
}

/// The table that an export writes for the records `start..end` of
/// `history`.
pub fn export_table_range(history: &Vec<Telemetry>, start: usize, end: usize) -> (r: Vec<
    Vec<String>,
>)
    requires
        start <= end <= history@.len(),
    ensures
        table_view(r@) == export_rows(history@.subrange(start as int, end as int)),
{
    let mut out: Vec<Vec<String>> = Vec::new();
    out.push(header_cells());
    let mut i: usize = start;
    let ghost h = history@.subrange(start as int, end as int);
    assert(h.take(0) =~= Seq::<Telemetry>::empty());
    assert(table_view(out@) =~= seq![header_row()] + h.take(0).map_values(
        |t: Telemetry| record_row(t),
    ));
    while i < end
        invariant
            start <= i <= end,
            end <= history@.len(),
            h == history@.subrange(start as int, end as int),
            table_view(out@) == seq![header_row()] + h.take(i - start).map_values(
                |t: Telemetry| record_row(t),
            ),
        decreases end - i,
    {
        let ghost prev = out@;
        let row = format_record(&history[i]);
        out.push(row);
        proof {
            assert(out@ == prev.push(row));
            assert(table_view(out@) =~= table_view(prev).push(row_view(row@)));
            assert(h.take(i - start + 1) =~= h.take(i - start).push(history@[i as int]));
        }
        i = i + 1;
        assert(table_view(out@) =~= seq![header_row()] + h.take(i - start).map_values(
            |t: Telemetry| record_row(t),
        ));
    }
    assert(h.take(end - start) =~= h);
    out
}

/// The CSV bytes of an export of `history`.
pub fn export_csv(history: &Vec<Telemetry>) -> (r: Result<Vec<u8>, ExportError>)
    ensures
        r matches Ok(b) && b@ == csv_encoding(export_rows(history@)),
{
    encode_rows(&export_table(history))
}

/// CSV bytes of the given rows, such as the header or one record's row of
/// the flight log.
pub fn encode_rows(rows: &Vec<Vec<String>>) -> (r: Result<Vec<u8>, ExportError>)
    ensures
        r matches Ok(b) && b@ == csv_encoding(table_view(rows@)),
{
    match encode_csv(rows) {
        Some(b) => Ok(b),
        None => Err(ExportError::Encoding),
    }
}

/// Name of the flight log opened at the given UTC time:
/// `log_flight_data_YYYYMMDD_hh_mm_ss_UTC.txt`.
pub open spec fn flight_log_name_text(
    year: nat,
    month: nat,
    day: nat,
    hour: nat,
    minute: nat,
    second: nat,
) -> Seq<char> {
    "log_flight_data_"@ + zero_padded(year, 4) + zero_padded(month, 2) + zero_padded(day, 2)
        + "_"@ + zero_padded(hour, 2) + "_"@ + zero_padded(minute, 2) + "_"@ + zero_padded(
        second,
        2,
    ) + "_UTC.txt"@
}

fn append_chars(out: &mut Vec<char>, more: &Vec<char>)
    ensures
        final(out)@ == old(out)@ + more@,
{
    let mut i: usize = 0;
    while i < more.len()
        invariant
            i <= more@.len(),
            out@ == old(out)@ + more@.take(i as int),
        decreases more@.len() - i,
    {
        out.push(more[i]);
        i = i + 1;
        assert(out@ =~= old(out)@ + more@.take(i as int));
    }
    assert(more@.take(i as int) =~= more@);
}

/// File name of the flight log opened at the given UTC time.
pub fn flight_log_name(year: u32, month: u32, day: u32, hour: u32, minute: u32, second: u32) -> (r:
    String)
    ensures
        r@ == flight_log_name_text(
            year as nat,
            month as nat,
            day as nat,
            hour as nat,
            minute as nat,
            second as nat,
        ),
{
    let mut out = chars_of("log_flight_data_");
    append_chars(&mut out, &format_zero_padded(year as u64, 4));
    append_chars(&mut out, &format_zero_padded(month as u64, 2));
    append_chars(&mut out, &format_zero_padded(day as u64, 2));
    append_chars(&mut out, &chars_of("_"));
    append_chars(&mut out, &format_zero_padded(hour as u64, 2));
    append_chars(&mut out, &chars_of("_"));
    append_chars(&mut out, &format_zero_padded(minute as u64, 2));
    append_chars(&mut out, &chars_of("_"));
    append_chars(&mut out, &format_zero_padded(second as u64, 2));
    append_chars(&mut out, &chars_of("_UTC.txt"));
    assert(out@ =~= flight_log_name_text(
        year as nat,
        month as nat,
        day as nat,
        hour as nat,
        minute as nat,
        second as nat,
    ));
    string_of(&out)
}


/// Decoding a row and formatting the record gives, in every numeric column,
/// text that reads back to the value decoded: nothing is lost beyond the
/// column's fixed precision.
pub proof fn lemma_decode_format_round_trip(cols: Seq<Seq<char>>, t: Telemetry)
    requires
        row_valid(cols),
        decodes_to(cols, t),
    ensures
        forall|i: int|
            0 <= i < 20 && is_int_column(i) ==> int_value(#[trigger] record_row(t)[i])
                == int_value(cols[i]),
        forall|i: int|
            0 <= i < 20 && fixed_precision(i) > 0 ==> fixed_value(
                #[trigger] record_row(t)[i],
                fixed_precision(i),
            ) == fixed_value(cols[i], fixed_precision(i)),
{
    assert forall|i: int| 0 <= i < 20 && is_int_column(i) implies int_value(
        #[trigger] record_row(t)[i],
    ) == int_value(cols[i]) by {
        assert(column_ok(cols[i], i));
        let v = int_value(cols[i])->Some_0;
        lemma_int_round_trip(v);
    }
    assert forall|i: int| 0 <= i < 20 && fixed_precision(i) > 0 implies fixed_value(
        #[trigger] record_row(t)[i],
        fixed_precision(i),
    ) == fixed_value(cols[i], fixed_precision(i)) by {
        assert(column_ok(cols[i], i));
        let v = fixed_value(cols[i], fixed_precision(i))->Some_0;
        assert(abs(v) <= SCALED_LIMIT);
        lemma_fixed_round_trip(v, fixed_precision(i));
    }
}

} // verus!
