use gcs::decimal::{format_fixed, format_int, format_zero_padded, parse_fixed, parse_int};
use gcs::export::{export_table, flight_log_name, header_cells};
use gcs::frame::FrameAssembler;
use gcs::playback::{command_string, load_script, parse_entry, Playback, ScriptSlot};
use gcs::station::{LinkError, RowReport, Station};
use gcs::telemetry::{decode_frame, decode_row, DecodeError, Decoded};

const EXAMPLE: &str = "1082,13:14:02,10,F,ASCENT,150.2,N,N,N,24.1,99.4,5.1,13:14:01,150.0,32.1234,-106.5678,3,45,1.23,4.50,CXON\n";

fn chars(s: &str) -> Vec<char> {
    s.chars().collect()
}

fn text(v: &[char]) -> String {
    v.iter().collect()
}

fn columns(line: &str) -> Vec<String> {
    line.split(',').map(|f| f.to_string()).collect()
}

fn feed(st: &mut Station, g: u64, bytes: &[u8]) -> Vec<RowReport> {
    let mut all = Vec::new();
    for b in bytes {
        all.extend(st.receive_byte(g, *b));
    }
    all
}

#[test]
fn example_line_is_accepted_and_exported() {
    let mut st = Station::new(1082);
    let g = st.connect();
    let reports = feed(&mut st, g, EXAMPLE.as_bytes());
    assert_eq!(reports, vec![RowReport::Stored]);
    assert_eq!(st.records().len(), 1);
    let t = &st.records()[0];
    assert_eq!(t.mission_time, "13:14:02");
    assert_eq!(t.altitude, 1502);
    assert_eq!(t.gps_latitude, 321234);
    assert_eq!(t.gps_longitude, -1065678);
    let table = export_table(st.records());
    assert_eq!(table.len(), 2);
    assert_eq!(table[0][5], "altitude");
    assert_eq!(table[0][14], "gps_latitude");
    assert_eq!(table[1][5], "150.2");
    assert_eq!(table[1][14], "32.1234");
    assert_eq!(table[1][15], "-106.5678");
    let bytes = st.export().unwrap();
    let csv = String::from_utf8(bytes).unwrap();
    let mut lines = csv.lines();
    assert!(lines.next().unwrap().starts_with("team_id,mission_time,packet_count"));
    let row = lines.next().unwrap();
    assert!(row.starts_with("1082,13:14:02,10,F,ASCENT,150.2,N,N,N,24.1,99.4,5.1,13:14:01,150.0,32.1234,-106.5678,3,"));
    assert!(lines.next().is_none());
}

#[test]
fn playback_row_renders_with_target_team() {
    let cmds = load_script("CMD,$,SIMP,101325", 1082);
    assert_eq!(cmds.len(), 1);
    assert_eq!(cmds[0].team_id, "1082");
    assert_eq!(command_string(&cmds[0]), "CMD,1082,SIMP,101325");
}

#[test]
fn malformed_lines_are_dropped_and_processing_continues() {
    let mut st = Station::new(1082);
    let g = st.connect();
    let short = feed(&mut st, g, b"1082,13:14:02,10\n");
    assert_eq!(short, vec![RowReport::Rejected(DecodeError::TooFewFields { found: 3 })]);
    let bad = EXAMPLE.replace("150.2", "high");
    let r = feed(&mut st, g, bad.as_bytes());
    assert_eq!(r, vec![RowReport::Rejected(DecodeError::BadNumber { column: 5 })]);
    assert_eq!(st.records().len(), 0);
    assert!(st.is_connected());
    let r = feed(&mut st, g, EXAMPLE.as_bytes());
    assert_eq!(r, vec![RowReport::Stored]);
    assert_eq!(st.records().len(), 1);
}

#[test]
fn other_team_is_filtered() {
    let mut st = Station::new(1082);
    let g = st.connect();
    let line = EXAMPLE.replacen("1082", "2000", 1);
    let r = feed(&mut st, g, line.as_bytes());
    assert_eq!(r, vec![RowReport::OtherTeam(2000)]);
    assert_eq!(st.records().len(), 0);
}

#[test]
fn history_grows_and_export_leaves_it_alone() {
    let mut st = Station::new(1082);
    let g = st.connect();
    feed(&mut st, g, EXAMPLE.as_bytes());
    let first = st.records()[0].mission_time.clone();
    feed(&mut st, g, EXAMPLE.replace("13:14:02", "13:14:03").as_bytes());
    assert_eq!(st.records().len(), 2);
    assert_eq!(st.records()[0].mission_time, first);
    assert_eq!(st.records()[1].mission_time, "13:14:03");
    let _ = st.export().unwrap();
    assert_eq!(st.records().len(), 2);
}

#[test]
fn repeated_exports_are_identical() {
    let mut st = Station::new(1082);
    let g = st.connect();
    feed(&mut st, g, EXAMPLE.as_bytes());
    feed(&mut st, g, EXAMPLE.as_bytes());
    let a = st.export().unwrap();
    let b = st.export().unwrap();
    assert_eq!(a, b);
}

#[test]
fn second_connect_supersedes_first_reader() {
    let mut st = Station::new(1082);
    let g1 = st.connect();
    feed(&mut st, g1, EXAMPLE.as_bytes());
    assert_eq!(st.records().len(), 1);
    let g2 = st.connect();
    assert_ne!(g1, g2);
    assert_eq!(st.records().len(), 0);
    let stale = feed(&mut st, g1, EXAMPLE.as_bytes());
    assert!(stale.is_empty());
    assert_eq!(st.records().len(), 0);
    feed(&mut st, g2, EXAMPLE.as_bytes());
    assert_eq!(st.records().len(), 1);
    st.disconnect(g1);
    assert!(st.is_connected());
    st.disconnect(g2);
    assert!(!st.is_connected());
    assert!(feed(&mut st, g2, EXAMPLE.as_bytes()).is_empty());
}

#[test]
fn playback_issues_each_row_once() {
    let script = "# pressure profile\nCMD,$,SIMP,101325\r\nCMD,1082,SIMP,101300.5\nCMD,$,XXX,1\nCMD,$,SIMP,abc\n\nCMD,$,SIMP,101200\n";
    let cmds = load_script(script, 1082);
    assert_eq!(cmds.len(), 3);
    let mut pb = Playback::new(cmds);
    assert_eq!(pb.remaining(), 3);
    assert_eq!(pb.next_command().unwrap(), "CMD,1082,SIMP,101325");
    assert_eq!(pb.next_command().unwrap(), "CMD,1082,SIMP,101300.5");
    assert_eq!(pb.next_command().unwrap(), "CMD,1082,SIMP,101200");
    assert!(pb.next_command().is_none());
    assert!(pb.next_command().is_none());
    assert_eq!(pb.remaining(), 0);
}

#[test]
fn playback_keeps_literal_team() {
    let c = parse_entry(&columns("CMD,77,SIMP,5"), 1082).unwrap();
    assert_eq!(c.team_id, "77");
    assert_eq!(c.pressure, 50);
    assert!(parse_entry(&columns("CMD,$,SIMP,5,6"), 1082).is_none());
    assert!(parse_entry(&columns("CMD,$,SIMPX,5"), 1082).is_none());
    assert_eq!(load_script("#CMD,$,SIMP,5\n", 1082).len(), 0);
}

#[test]
fn outbound_needs_connection() {
    let mut st = Station::new(1082);
    assert_eq!(st.outbound("CXON"), Err(LinkError::NotConnected));
    st.connect();
    assert_eq!(st.outbound("CXON").unwrap(), "CXON\r\n");
}

#[test]
fn decimal_round_trip_at_precision() {
    for (s, p) in [("150.2", 1), ("-106.5678", 4), ("4.50", 2), ("0.0", 1), ("-0.05", 2)] {
        let v = parse_fixed(&chars(s), p).unwrap();
        assert_eq!(text(&format_fixed(v, p)), s);
    }
    assert_eq!(parse_fixed(&chars("45"), 2), Some(4500));
    assert_eq!(text(&format_fixed(4500, 2)), "45.00");
    assert_eq!(parse_fixed(&chars("1.26"), 1), Some(13));
    assert_eq!(parse_fixed(&chars("-1.25"), 1), Some(-13));
    assert_eq!(parse_fixed(&chars("1.24"), 1), Some(12));
    assert_eq!(parse_fixed(&chars(".5"), 1), Some(5));
    assert_eq!(parse_fixed(&chars("7."), 1), Some(70));
    assert_eq!(parse_fixed(&chars("+3"), 1), Some(30));
    assert_eq!(parse_fixed(&chars("."), 1), None);
    assert_eq!(parse_fixed(&chars(""), 1), None);
    assert_eq!(parse_fixed(&chars("1.2.3"), 1), None);
    assert_eq!(parse_fixed(&chars("1e3"), 1), None);
    assert_eq!(parse_fixed(&chars("99999999999999999999"), 1), None);
    assert_eq!(text(&format_fixed(-5, 1)), "-0.5");
    assert_eq!(text(&format_fixed(321234, 4)), "32.1234");
    assert_eq!(text(&format_fixed(7, 4)), "0.0007");
}

#[test]
fn integer_columns() {
    assert_eq!(parse_int(&chars("1082")), Some(1082));
    assert_eq!(parse_int(&chars("-2147483648")), Some(i32::MIN));
    assert_eq!(parse_int(&chars("2147483647")), Some(i32::MAX));
    assert_eq!(parse_int(&chars("2147483648")), None);
    assert_eq!(parse_int(&chars("0002147483647")), Some(i32::MAX));
    assert_eq!(parse_int(&chars("12a")), None);
    assert_eq!(parse_int(&chars("-")), None);
    assert_eq!(parse_int(&chars("1.0")), None);
    assert_eq!(text(&format_int(-42)), "-42");
    assert_eq!(text(&format_int(0)), "0");
    assert_eq!(text(&format_zero_padded(7, 2)), "07");
    assert_eq!(text(&format_zero_padded(12345, 4)), "12345");
}

#[test]
fn decode_row_reports_first_problem() {
    let cols = columns("1082,13:14:02,10,F,ASCENT,150.2,N,N,N,24.1,99.4,5.1,13:14:01,150.0,32.1234,-106.5678,3,45,1.23,CXON");
    let t = decode_row(&cols).unwrap();
    assert_eq!(t.tilt_x, 4500);
    assert_eq!(t.tilt_y, 123);
    assert_eq!(t.cmd_echo, "CXON");
    assert_eq!(t.gps_sats, 3);
    assert_eq!(t.pressure, 994);
    let mut bad = cols.clone();
    bad[16] = "three".to_string();
    assert!(matches!(decode_row(&bad), Err(DecodeError::BadNumber { column: 16 })));
    assert!(matches!(decode_row(&cols[..10].to_vec()), Err(DecodeError::TooFewFields { found: 10 })));
}

#[test]
fn frame_with_carriage_returns_yields_each_row() {
    let two = format!("{}\r{}\r", EXAMPLE.trim_end(), EXAMPLE.trim_end());
    let out = decode_frame(&two.into_bytes(), 1082);
    assert_eq!(out.len(), 2);
    assert!(out.iter().all(|d| matches!(d, Decoded::Accepted(_))));
    assert!(decode_frame(&Vec::new(), 1082).is_empty());
}

#[test]
fn frames_split_on_line_feed() {
    let mut fa = FrameAssembler::new();
    assert!(fa.push_byte(b'a').is_none());
    assert!(fa.push_byte(b'b').is_none());
    assert_eq!(fa.push_byte(b'\n'), Some(b"ab".to_vec()));
    assert_eq!(fa.push_byte(b'\n'), Some(Vec::new()));
}

#[test]
fn flight_log_file_name() {
    assert_eq!(flight_log_name(2023, 6, 9, 7, 5, 3), "log_flight_data_20230609_07_05_03_UTC.txt");
    assert_eq!(header_cells().len(), 20);
}

#[test]
fn session_export_selects_recorded_records() {
    let mut st = Station::new(1082);
    let g = st.connect();
    assert_eq!(String::from_utf8(st.export_session().unwrap()).unwrap().lines().count(), 1);
    feed(&mut st, g, EXAMPLE.as_bytes());
    st.start_recording();
    feed(&mut st, g, EXAMPLE.replace("13:14:02", "13:14:05").as_bytes());
    st.stop_recording();
    feed(&mut st, g, EXAMPLE.replace("13:14:02", "13:14:09").as_bytes());
    let csv = String::from_utf8(st.export_session().unwrap()).unwrap();
    let rows: Vec<&str> = csv.lines().collect();
    assert_eq!(rows.len(), 2);
    assert!(rows[1].starts_with("1082,13:14:05,"));
    assert_eq!(String::from_utf8(st.export().unwrap()).unwrap().lines().count(), 4);
}

#[test]
fn script_slot_plays_once() {
    let mut slot = ScriptSlot::new();
    assert!(slot.start().is_none());
    assert_eq!(slot.load("CMD,$,SIMP,101325\nCMD,$,SIMP,101300\n", 1082), 2);
    let mut pb = slot.start().unwrap();
    assert!(slot.start().is_none());
    assert_eq!(pb.next_command().unwrap(), "CMD,1082,SIMP,101325");
    assert_eq!(pb.next_command().unwrap(), "CMD,1082,SIMP,101300");
    assert!(pb.next_command().is_none());
}

#[test]
fn quoted_field_is_read_by_csv_rules() {
    let line = EXAMPLE.replace(",CXON", ",\"CX,ON\"");
    let out = decode_frame(&line.into_bytes(), 1082);
    assert_eq!(out.len(), 1);
    assert!(matches!(&out[0], Decoded::Accepted(_)));
}
