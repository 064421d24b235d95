//! The ground station's shared state: which connection is live, the record
//! history of that connection, and the command uplink.
use vstd::prelude::*;
use crate::frame::{FrameAssembler, LINE_FEED};
use crate::telemetry::{Telemetry, Decoded, DecodeError, decode_frame, frame_rows, outcome_of, accepted, row_valid};
use crate::export::{ExportError, export_csv, export_rows, csv_encoding, encode_rows, export_table_range};
use crate::text::{chars_of, string_of};

verus! {

/// What became of one row of a completed frame, once stored.
#[derive(Clone, Copy, Debug, PartialEq, Eq, Structural)]
pub enum RowReport {
    /// The record was appended to the history.
    Stored,
    Rejected(DecodeError),
    OtherTeam(i32),
}

/// Why an outbound command could not be sent.
#[derive(Clone, Copy, Debug, PartialEq, Eq, Structural)]
pub enum LinkError {
    NotConnected,
}

pub open spec fn report_of(d: Decoded) -> RowReport {
    match d {
        Decoded::Accepted(_) => RowReport::Stored,
        Decoded::Rejected(e) => RowReport::Rejected(e),
        Decoded::OtherTeam(id) => RowReport::OtherTeam(id),
    }
}

/// Connection generations, history and the frame being assembled. Each
/// connect starts a new generation; bytes tagged with any other generation
/// come from a superseded reader and are ignored.
pub struct Station {
    target_team: i32,
    history: Vec<Telemetry>,
    generation: u64,
    connected: bool,
    reader: FrameAssembler,
    session_start: Option<usize>,
    session_end: Option<usize>,
}

impl Station {
    pub closed spec fn history(&self) -> Seq<Telemetry> {
        self.history@
    }

    pub closed spec fn generation(&self) -> u64 {
        self.generation
    }

    pub closed spec fn connected(&self) -> bool {
        self.connected
    }

    pub closed spec fn target(&self) -> i32 {
        self.target_team
    }

    pub closed spec fn pending(&self) -> Seq<u8> {
        self.reader.pending()
    }

    /// Where recording started and stopped, as history lengths.
    pub closed spec fn session_marks(&self) -> (Option<usize>, Option<usize>) {
        (self.session_start, self.session_end)
    }

    /// The records of the recording session: from its start to its stop, or
    /// to the end of the history while it is still recording; none when no
    /// recording was started.
    pub open spec fn session_range(&self) -> (int, int) {
        let len = self.history().len() as int;
        match self.session_marks().0 {
            None => (len, len),
            Some(s) => {
                let lo = if s <= len { s as int } else { len };
                let e = match self.session_marks().1 {
                    Some(e) => e as int,
                    None => len,
                };
                let hi = if e <= len { e } else { len };
                (lo, if lo <= hi { hi } else { lo })
            },
        }
    }

    /// The reader of generation `g` is the one live reader.
    pub open spec fn is_live(&self, g: u64) -> bool {
        self.connected() && self.generation() == g
    }

    /// A disconnected station that keeps records of `target_team`.
    pub fn new(target_team: i32) -> (r: Station)
        ensures
            r.history() == Seq::<Telemetry>::empty(),
            !r.connected(),
            r.generation() == 0,
            r.target() == target_team,
            r.pending() == Seq::<u8>::empty(),
            r.session_marks() == (None::<usize>, None::<usize>),
    {
        Station {
            target_team,
            history: Vec::new(),
            generation: 0,
            connected: false,
            reader: FrameAssembler::new(),
            session_start: None,
            session_end: None,
        }
    }

    pub fn target_team(&self) -> (r: i32)
        ensures
            r == self.target(),
    {
        self.target_team
    }

    pub fn is_connected(&self) -> (r: bool)
        ensures
            r == self.connected(),
    {
        self.connected
    }

    pub fn current_generation(&self) -> (r: u64)
        ensures
            r == self.generation(),
    {
        self.generation
    }

    /// The records of the live connection, in arrival order.
    pub fn records(&self) -> (r: &Vec<Telemetry>)
        ensures
            r@ == self.history(),
    {
        &self.history
    }

    /// A device was opened: the previous connection, if any, is superseded,
    /// the history starts empty, and the returned generation is the only
    /// live one.
    pub fn connect(&mut self) -> (r: u64)
        requires
            old(self).generation() < u64::MAX,
        ensures
            r == old(self).generation() + 1,
            final(self).generation() == r,
            final(self).connected(),
            final(self).history() == Seq::<Telemetry>::empty(),
            final(self).pending() == Seq::<u8>::empty(),
            final(self).target() == old(self).target(),
            final(self).session_marks() == (None::<usize>, None::<usize>),
            forall|g: u64| #[trigger] final(self).is_live(g) <==> g == r,
    {
        self.session_start = None;
        self.session_end = None;
        self.generation = self.generation + 1;
        self.connected = true;
        self.history = Vec::new();
        self.reader.clear();
        self.generation
    }

    /// The reader of generation `g` ended (read error, end of stream, or an
    /// explicit disconnect). Only the live generation can end the connection.
    pub fn disconnect(&mut self, g: u64)
        ensures
            old(self).is_live(g) ==> !final(self).connected() && final(self).history() == old(self).history() && final(self).generation() == old(self).generation() && final(self).target() == old(self).target(),
            !old(self).is_live(g) ==> *final(self) == *old(self),
    {
        if self.connected && self.generation == g {
            self.connected = false;
        }
    }

    /// One byte from the reader of generation `g`. A line feed completes a
    /// frame: its rows are decoded, and the accepted records are appended to
    /// the history in order. Bytes of a reader that is not live change
    /// nothing.
    pub fn receive_byte(&mut self, g: u64, b: u8) -> (r: Vec<RowReport>)
        ensures
            !old(self).is_live(g) ==> r@.len() == 0 && *final(self) == *old(self),
            old(self).is_live(g) ==> final(self).is_live(g) && final(self).target() == old(self).target()
                && final(self).session_marks() == old(self).session_marks(),
            old(self).is_live(g) && b != LINE_FEED ==> r@.len() == 0 && final(self).history()
                == old(self).history() && final(self).pending() == old(self).pending().push(b),
            old(self).is_live(g) && b == LINE_FEED ==> final(self).pending() == Seq::<u8>::empty(),
            old(self).is_live(g) && b == LINE_FEED ==> exists|ds: Seq<Decoded>|
                {
                    &&& ds.len() == frame_rows(old(self).pending()).len()
                    &&& forall|i: int|
                        0 <= i < ds.len() ==> outcome_of(
                            #[trigger] frame_rows(old(self).pending())[i],
                            old(self).target(),
                            ds[i],
                        )
                    &&& final(self).history() == old(self).history() + accepted(ds)
                    &&& r@ == ds.map_values(|d: Decoded| report_of(d))
                },
            final(self).history().len() >= old(self).history().len(),
            forall|i: int|
                0 <= i < old(self).history().len() ==> #[trigger] final(self).history()[i] == old(self).history()[i],
    {
        let mut reports: Vec<RowReport> = Vec::new();
        if !(self.connected && self.generation == g) {
            return reports;
        }
        let frame = match self.reader.push_byte(b) {
            Some(f) => f,
            None => return reports,
        };
        let mut outcomes = decode_frame(&frame, self.target_team);
        let ghost ds = outcomes@;
        let ghost start = self.history@;
        let ghost mut k: int = 0;
        assert(accepted(ds.take(0)) =~= Seq::<Telemetry>::empty());
        assert(start + Seq::<Telemetry>::empty() =~= start);
        while outcomes.len() > 0
            invariant
                0 <= k <= ds.len(),
                outcomes@ == ds.skip(k),
                self.history@ == start + accepted(ds.take(k)),
                reports@ == ds.take(k).map_values(|d: Decoded| report_of(d)),
                self.connected,
                self.generation == g,
                self.target_team == old(self).target_team,
                self.session_start == old(self).session_start,
                self.session_end == old(self).session_end,
                self.reader.pending() == Seq::<u8>::empty(),
            decreases outcomes@.len(),
        {
            let ghost before = outcomes@;
            let d = outcomes.remove(0);
            proof {
                assert(d == ds[k]);
                assert(ds.take(k + 1).drop_last() =~= ds.take(k));
                assert(ds.take(k + 1).last() == d);
            }
            match d {
                Decoded::Accepted(t) => {
                    self.history.push(t);
                    reports.push(RowReport::Stored);
                },
                Decoded::Rejected(e) => {
                    reports.push(RowReport::Rejected(e));
                },
                Decoded::OtherTeam(id) => {
                    reports.push(RowReport::OtherTeam(id));
                },
            }
            proof {
                k = k + 1;
                assert(outcomes@ =~= ds.skip(k));
                assert(self.history@ =~= start + accepted(ds.take(k)));
                assert(reports@ =~= ds.take(k).map_values(|d: Decoded| report_of(d)));
            }
        }
        assert(ds.take(k) =~= ds);
        reports
    }

    /// The bytes that sending `command` writes to the device: the command
    /// and a line terminator. Requires a live connection.
    pub fn outbound(&self, command: &str) -> (r: Result<String, LinkError>)
        ensures
            !self.connected() ==> r == Err::<String, LinkError>(LinkError::NotConnected),
            self.connected() ==> (r matches Ok(s) && s@ == command@ + seq!['\r', '\n']),
    {
        if !self.connected {
            return Err(LinkError::NotConnected);
        }
        let mut chars = chars_of(command);
        chars.push('\r');
        chars.push('\n');
        assert(chars@ =~= command@ + seq!['\r', '\n']);
        Ok(string_of(&chars))
    }

    /// Starts a recording session at the current end of the history.
    pub fn start_recording(&mut self)
        ensures
            final(self).session_marks() == (Some(old(self).history().len() as usize), None::<usize>),
            final(self).history() == old(self).history(),
            final(self).generation() == old(self).generation(),
            final(self).connected() == old(self).connected(),
            final(self).target() == old(self).target(),
            final(self).pending() == old(self).pending(),
    {
        self.session_start = Some(self.history.len());
        self.session_end = None;
    }

    /// Stops a recording session that is running; otherwise does nothing.
    pub fn stop_recording(&mut self)
        ensures
            (old(self).session_marks().0 is Some && old(self).session_marks().1 is None)
                ==> final(self).session_marks() == (old(self).session_marks().0, Some(
                old(self).history().len() as usize)),
            !(old(self).session_marks().0 is Some && old(self).session_marks().1 is None)
                ==> final(self).session_marks() == old(self).session_marks(),
            final(self).history() == old(self).history(),
            final(self).generation() == old(self).generation(),
            final(self).connected() == old(self).connected(),
            final(self).target() == old(self).target(),
            final(self).pending() == old(self).pending(),
    {
        if self.session_start.is_some() && self.session_end.is_none() {
            self.session_end = Some(self.history.len());
        }
    }

    /// Bounds of the records of the recording session.
    pub fn session_bounds(&self) -> (r: (usize, usize))
        ensures
            r.0 as int == self.session_range().0,
            r.1 as int == self.session_range().1,
            r.0 <= r.1 <= self.history().len(),
    {
        let len = self.history.len();
        match self.session_start {
            None => (len, len),
            Some(s) => {
                let lo = if s <= len { s } else { len };
                let e = match self.session_end {
                    Some(e) => e,
                    None => len,
                };
                let hi = if e <= len { e } else { len };
                (lo, if lo <= hi { hi } else { lo })
            },
        }
    }

    /// CSV bytes of the records of the recording session.
    pub fn export_session(&self) -> (r: Result<Vec<u8>, ExportError>)
        ensures
            r matches Ok(b) && b@ == csv_encoding(
                export_rows(self.history().subrange(self.session_range().0, self.session_range().1)),
            ),
    {
        let (lo, hi) = self.session_bounds();
        encode_rows(&export_table_range(&self.history, lo, hi))
    }

    /// Whether the reader of generation `g` is the live one.
    pub fn is_current(&self, g: u64) -> (r: bool)
        ensures
            r == self.is_live(g),
    {
        self.connected && self.generation == g
    }

    /// CSV bytes of the whole history; the station is not changed.
    pub fn export(&self) -> (r: Result<Vec<u8>, ExportError>)
        ensures
            r matches Ok(b) && b@ == csv_encoding(export_rows(self.history())),
    {
        export_csv(&self.history)
    }
}

/// At most one reader is live at any time.
pub proof fn lemma_single_live_reader(s: Station, g1: u64, g2: u64)
    requires
        s.is_live(g1),
        s.is_live(g2),
    ensures
        g1 == g2,
{
}

/// A row whose columns do not decode is rejected, never stored.
pub proof fn lemma_invalid_row_rejected(cols: Seq<Seq<char>>, target: i32, d: Decoded)
    requires
        !row_valid(cols),
        outcome_of(Some(cols), target, d),
    ensures
        d is Rejected,
        accepted(seq![d]) == Seq::<Telemetry>::empty(),
{
    assert(seq![d].drop_last() =~= Seq::<Decoded>::empty());
    assert(seq![d].last() == d);
    assert(accepted(Seq::<Decoded>::empty()) == Seq::<Telemetry>::empty());
}

/// Rows that are all rejected or of another team add no record.
pub proof fn lemma_rejected_rows_add_nothing(ds: Seq<Decoded>)
    requires
        forall|i: int| 0 <= i < ds.len() ==> !(#[trigger] ds[i] is Accepted),
    ensures
        accepted(ds) == Seq::<Telemetry>::empty(),
    decreases ds.len(),
{
    if ds.len() > 0 {
        lemma_rejected_rows_add_nothing(ds.drop_last());
    }
}

/// A frame none of whose rows decodes adds nothing, so the frames after it
/// append exactly what they would have appended without it.
pub proof fn lemma_malformed_frame_skipped(
    frame: Seq<u8>,
    target: i32,
    ds_bad: Seq<Decoded>,
    h: Seq<Telemetry>,
    ds_next: Seq<Decoded>,
)
    requires
        ds_bad.len() == frame_rows(frame).len(),
        forall|i: int|
            0 <= i < ds_bad.len() ==> outcome_of(#[trigger] frame_rows(frame)[i], target, ds_bad[i]),
        forall|i: int|
            0 <= i < frame_rows(frame).len() ==> (#[trigger] frame_rows(frame)[i] matches Some(cols)
                ==> !row_valid(cols)),
    ensures
        h + accepted(ds_bad) + accepted(ds_next) == h + accepted(ds_next),
{
    assert forall|i: int| 0 <= i < ds_bad.len() implies !(#[trigger] ds_bad[i] is Accepted) by {
        assert(outcome_of(frame_rows(frame)[i], target, ds_bad[i]));
    }
    lemma_rejected_rows_add_nothing(ds_bad);
    assert(h + Seq::<Telemetry>::empty() =~= h);
}

/// The accepted records of a run of frames, frame after frame.
pub open spec fn accepted_frames(dss: Seq<Seq<Decoded>>) -> Seq<Telemetry>
    decreases dss.len(),
{
    if dss.len() == 0 {
        Seq::empty()
    } else {
        accepted_frames(dss.drop_last()) + accepted(dss.last())
    }
}

/// While one connection stays live, each frame appends its accepted records
/// (the contract of `receive_byte`); over a run of frames the first history
/// stays a prefix, and what follows it is the accepted records in arrival
/// order.
pub proof fn lemma_history_append_only(hs: Seq<Seq<Telemetry>>, dss: Seq<Seq<Decoded>>)
    requires
        hs.len() == dss.len() + 1,
        forall|k: int| 0 <= k < dss.len() ==> #[trigger] hs[k + 1] == hs[k] + accepted(dss[k]),
    ensures
        hs.last() == hs[0] + accepted_frames(dss),
        hs.last().subrange(0, hs[0].len() as int) == hs[0],
    decreases dss.len(),
{
    if dss.len() == 0 {
        assert(hs[0] + Seq::<Telemetry>::empty() =~= hs[0]);
        assert(hs.last().subrange(0, hs[0].len() as int) =~= hs[0]);
    } else {
        let n = dss.len() - 1;
        let hs1 = hs.drop_last();
        let dss1 = dss.drop_last();
        assert forall|k: int| 0 <= k < dss1.len() implies #[trigger] hs1[k + 1] == hs1[k] + accepted(
            dss1[k],
        ) by {
            assert(hs[k + 1] == hs[k] + accepted(dss[k]));
        }
        lemma_history_append_only(hs1, dss1);
        assert(hs[n + 1] == hs[n] + accepted(dss[n]));
        assert(hs.last() =~= hs[0] + accepted_frames(dss));
        assert(hs.last().subrange(0, hs[0].len() as int) =~= hs[0]);
    }
}

/// Two exports of the same history produce the same bytes.
pub proof fn lemma_export_repeatable(h1: Seq<Telemetry>, h2: Seq<Telemetry>, b1: Seq<u8>, b2: Seq<u8>)
    requires
        h1 == h2,
        b1 == csv_encoding(export_rows(h1)),
        b2 == csv_encoding(export_rows(h2)),
    ensures
        b1 == b2,
{
}

} // verus!
