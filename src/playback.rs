//! Playback scripts: loading `CMD,<team>,SIMP,<pressure>` rows and handing
//! out their commands one at a time, in order, exactly once.
use vstd::prelude::*;
use crate::decimal::{int_text, fixed_text, fixed_value, parse_fixed, format_int, format_fixed, abs, nat_digits, is_digit, lemma_nat_digits};
use crate::text::{row_view, chars_of, string_of};
use crate::records::{csv_script_records_of, record_view, records_view, read_script_records};

verus! {

/// One command of a script, its team id already resolved; the pressure is
/// in tenths.
#[derive(Clone, Debug)]
pub struct PlaybackCommand {
    pub team_id: String,
    pub pressure: i64,
}

/// A data record: four fields, the two sentinels in place and a numeric
/// payload.
pub open spec fn entry_valid(f: Seq<Seq<char>>) -> bool {
    &&& f.len() == 4
    &&& f[0] == "CMD"@
    &&& f[2] == "SIMP"@
    &&& fixed_value(f[3], 1) is Some
}

/// The team field with the wildcard resolved to `target`.
pub open spec fn resolved_team(field: Seq<char>, target: i32) -> Seq<char> {
    if field == "$"@ {
        int_text(target as int)
    } else {
        field
    }
}

pub open spec fn command_of(f: Seq<Seq<char>>, target: i32, c: PlaybackCommand) -> bool {
    &&& c.team_id@ == resolved_team(f[1], target)
    &&& fixed_value(f[3], 1) == Some(c.pressure as int)
}

/// The data records among the records of a script, in order.
pub open spec fn valid_entries(recs: Seq<Option<Seq<Seq<char>>>>) -> Seq<Seq<Seq<char>>>
    decreases recs.len(),
{
    if recs.len() == 0 {
        Seq::empty()
    } else {
        match recs.last() {
            Some(f) => if entry_valid(f) {
                valid_entries(recs.drop_last()).push(f)
            } else {
                valid_entries(recs.drop_last())
            },
            None => valid_entries(recs.drop_last()),
        }
    }
}

/// The data records of a script's text.
pub open spec fn script_entries(text: Seq<char>) -> Seq<Seq<Seq<char>>> {
    valid_entries(csv_script_records_of(text))
}

/// Payload text: a whole number plainly, otherwise with one decimal.
pub open spec fn payload_text(p: int) -> Seq<char> {
    if p % 10 == 0 {
        int_text(p / 10)
    } else {
        fixed_text(p, 1)
    }
}

/// The text sent for a command.
pub open spec fn command_text(c: PlaybackCommand) -> Seq<char> {
    "CMD,"@ + c.team_id@ + ",SIMP,"@ + payload_text(c.pressure as int)
}

fn same_chars(a: &Vec<char>, b: &Vec<char>) -> (r: bool)
    ensures
        r == (a@ == b@),
{
    if a.len() != b.len() {
        return false;
    }
    let mut i: usize = 0;
    while i < a.len()
        invariant
            i <= a@.len(),
            a@.len() == b@.len(),
            forall|k: int| 0 <= k < i ==> a@[k] == b@[k],
        decreases a@.len() - i,
    {
        if a[i] != b[i] {
            return false;
        }
        i = i + 1;
    }
    assert(a@ =~= b@);
    true
}

fn is_word(a: &String, w: &str) -> (r: bool)
    ensures
        r == (a@ == w@),
{
    same_chars(&chars_of(a.as_str()), &chars_of(w))
}

/// Reads the fields of one script record into a command, if it is a data
/// record.
pub fn parse_entry(fields: &Vec<String>, target_team: i32) -> (r: Option<PlaybackCommand>)
    ensures
        r is Some <==> entry_valid(row_view(fields@)),
        r matches Some(c) ==> command_of(row_view(fields@), target_team, c),
{
    let ghost fv = row_view(fields@);
    assert(fields@.len() == fv.len());
    if fields.len() != 4 {
        return None;
    }
    assert(fv[0] == fields@[0]@ && fv[1] == fields@[1]@ && fv[2] == fields@[2]@ && fv[3]
        == fields@[3]@);
    if !is_word(&fields[0], "CMD") || !is_word(&fields[2], "SIMP") {
        return None;
    }
    let pressure = match parse_fixed(&chars_of(fields[3].as_str()), 1) {
        Some(p) => p,
        None => return None,
    };
    let team_id = if is_word(&fields[1], "$") {
        string_of(&format_int(target_team as i64))
    } else {
        fields[1].clone()
    };
    Some(PlaybackCommand { team_id, pressure })
}

/// Loads a script: one command per data record, in order; comment lines and
/// malformed records are skipped.
pub fn load_script(text: &str, target_team: i32) -> (r: Vec<PlaybackCommand>)
    ensures
        r@.len() == script_entries(text@).len(),
        forall|i: int|
            0 <= i < r@.len() ==> command_of(
                #[trigger] script_entries(text@)[i],
                target_team,
                r@[i],
            ),
{
    let recs = read_script_records(text);
    let ghost all = records_view(recs@);
    let mut out: Vec<PlaybackCommand> = Vec::new();
    let mut k: usize = 0;
    assert(all.take(0) =~= Seq::<Option<Seq<Seq<char>>>>::empty());
    while k < recs.len()
        invariant
            k <= recs@.len(),
            all == records_view(recs@),
            all == csv_script_records_of(text@),
            out@.len() == valid_entries(all.take(k as int)).len(),
            forall|j: int|
                0 <= j < out@.len() ==> command_of(
                    #[trigger] valid_entries(all.take(k as int))[j],
                    target_team,
                    out@[j],
                ),
        decreases recs@.len() - k,
    {
        proof {
            assert(all.take(k + 1).drop_last() =~= all.take(k as int));
            assert(all.take(k + 1).last() == record_view(recs@[k as int]));
        }
        let ghost prev = valid_entries(all.take(k as int));
        match &recs[k] {
            Some(fields) => match parse_entry(fields, target_team) {
                Some(c) => {
                    out.push(c);
                    assert(valid_entries(all.take(k + 1)) == prev.push(row_view(fields@)));
                },
                None => {},
            },
            None => {},
        }
        k = k + 1;
    }
    assert(all.take(k as int) =~= all);
    out
}

/// Text of a command as sent to the device.
pub fn command_string(c: &PlaybackCommand) -> (r: String)
    ensures
        r@ == command_text(*c),
{
    let mut out = chars_of("CMD,");
    let team = chars_of(c.team_id.as_str());
    let mut i: usize = 0;
    let ghost head = out@;
    while i < team.len()
        invariant
            i <= team@.len(),
            out@ == head + team@.take(i as int),
        decreases team@.len() - i,
    {
        out.push(team[i]);
        i = i + 1;
        assert(out@ =~= head + team@.take(i as int));
    }
    assert(team@.take(i as int) =~= team@);
    let sep = chars_of(",SIMP,");
    let payload = if c.pressure % 10 == 0 {
        format_int(c.pressure / 10)
    } else {
        format_fixed(c.pressure, 1)
    };
    let mut tail = sep;
    let ghost mid = tail@;
    let mut j: usize = 0;
    while j < payload.len()
        invariant
            j <= payload@.len(),
            tail@ == mid + payload@.take(j as int),
        decreases payload@.len() - j,
    {
        tail.push(payload[j]);
        j = j + 1;
        assert(tail@ =~= mid + payload@.take(j as int));
    }
    assert(payload@.take(j as int) =~= payload@);
    let ghost front = out@;
    let mut m: usize = 0;
    while m < tail.len()
        invariant
            m <= tail@.len(),
            out@ == front + tail@.take(m as int),
        decreases tail@.len() - m,
    {
        out.push(tail[m]);
        m = m + 1;
        assert(out@ =~= front + tail@.take(m as int));
    }
    assert(tail@.take(m as int) =~= tail@);
    assert(out@ =~= command_text(*c));
    string_of(&out)
}


/// A loaded script being played: each command is handed out once, in
/// order; the caller sends one per tick of its fixed interval.
pub struct Playback {
    commands: Vec<PlaybackCommand>,
    next: usize,
}

impl Playback {
    pub closed spec fn commands(&self) -> Seq<PlaybackCommand> {
        self.commands@
    }

    /// How many commands have been handed out.
    pub closed spec fn position(&self) -> nat {
        self.next as nat
    }

    pub fn new(commands: Vec<PlaybackCommand>) -> (r: Playback)
        ensures
            r.commands() == commands@,
            r.position() == 0,
    {
        Playback { commands, next: 0 }
    }

    /// Commands not yet handed out.
    pub fn remaining(&self) -> (r: usize)
        requires
            self.position() <= self.commands().len(),
        ensures
            r == self.commands().len() - self.position(),
    {
        self.commands.len() - self.next
    }

    /// The text of the next command, or `None` once every command was
    /// handed out.
    pub fn next_command(&mut self) -> (r: Option<String>)
        ensures
            playback_step(*old(self), *final(self), r),
    {
        if self.next >= self.commands.len() {
            return None;
        }
        let s = command_string(&self.commands[self.next]);
        self.next = self.next + 1;
        Some(s)
    }
}

/// The loaded script: filled by a load, emptied when playback starts, so a
/// script plays at most once per load.
pub struct ScriptSlot {
    commands: Option<Vec<PlaybackCommand>>,
}

impl ScriptSlot {
    pub closed spec fn loaded(&self) -> Option<Seq<PlaybackCommand>> {
        match self.commands {
            Some(v) => Some(v@),
            None => None,
        }
    }

    pub fn new() -> (r: ScriptSlot)
        ensures
            r.loaded() is None,
    {
        ScriptSlot { commands: None }
    }

    /// Loads a script, replacing any script not yet played; returns how
    /// many commands it holds.
    pub fn load(&mut self, text: &str, target_team: i32) -> (n: usize)
        ensures
            final(self).loaded() is Some,
            n == final(self).loaded()->Some_0.len(),
            n == script_entries(text@).len(),
            forall|i: int|
                0 <= i < n ==> command_of(
                    #[trigger] script_entries(text@)[i],
                    target_team,
                    final(self).loaded()->Some_0[i],
                ),
    {
        let cmds = load_script(text, target_team);
        let n = cmds.len();
        self.commands = Some(cmds);
        n
    }

    /// Starts playback of the loaded script, leaving the slot empty; `None`
    /// when no script is loaded.
    pub fn start(&mut self) -> (r: Option<Playback>)
        ensures
            final(self).loaded() is None,
            r is Some <==> old(self).loaded() is Some,
            r matches Some(p) ==> p.commands() == old(self).loaded()->Some_0 && p.position() == 0,
    {
        let mut taken: Option<Vec<PlaybackCommand>> = None;
        std::mem::swap(&mut taken, &mut self.commands);
        match taken {
            Some(cmds) => Some(Playback::new(cmds)),
            None => None,
        }
    }
}

/// One call of `next_command`: the commands stay; before the end the next
/// command's text comes out and the position advances; at the end nothing
/// comes out and nothing moves.
pub open spec fn playback_step(p0: Playback, p1: Playback, r: Option<String>) -> bool {
    &&& p1.commands() == p0.commands()
    &&& p0.position() < p0.commands().len() ==> (r matches Some(s) && s@ == command_text(
        p0.commands()[p0.position() as int],
    ))
    &&& p0.position() < p0.commands().len() ==> p1.position() == p0.position() + 1
    &&& p0.position() >= p0.commands().len() ==> r is None && p1.position() == p0.position()
}

proof fn lemma_playback_prefix(ps: Seq<Playback>, rs: Seq<Option<String>>, k: int)
    requires
        ps.len() == rs.len() + 1,
        ps[0].position() == 0,
        forall|j: int| 0 <= j < rs.len() ==> playback_step(#[trigger] ps[j], ps[j + 1], rs[j]),
        0 <= k < ps.len(),
    ensures
        ps[k].commands() == ps[0].commands(),
        ps[k].position() == if k < ps[0].commands().len() { k } else { ps[0].commands().len() as int },
    decreases k,
{
    if k > 0 {
        lemma_playback_prefix(ps, rs, k - 1);
        assert(playback_step(ps[k - 1], ps[k], rs[k - 1]));
    }
}

/// Played from the start, a script of `N` commands hands out exactly `N`
/// texts, the `i`-th being the text of the `i`-th command, and nothing
/// after them.
pub proof fn lemma_playback_run(ps: Seq<Playback>, rs: Seq<Option<String>>)
    requires
        ps.len() == rs.len() + 1,
        ps[0].position() == 0,
        forall|j: int| 0 <= j < rs.len() ==> playback_step(#[trigger] ps[j], ps[j + 1], rs[j]),
    ensures
        forall|k: int|
            0 <= k < rs.len() && k < ps[0].commands().len() ==> (#[trigger] rs[k] matches Some(s)
                && s@ == command_text(ps[0].commands()[k])),
        forall|k: int| 0 <= k < rs.len() && k >= ps[0].commands().len() ==> #[trigger] rs[k] is None,
{
    assert forall|k: int| 0 <= k < rs.len() && k < ps[0].commands().len() implies (
    #[trigger] rs[k] matches Some(s) && s@ == command_text(ps[0].commands()[k])) by {
        lemma_playback_prefix(ps, rs, k);
        assert(playback_step(ps[k], ps[k + 1], rs[k]));
    }
    assert forall|k: int| 0 <= k < rs.len() && k >= ps[0].commands().len() implies #[trigger] rs[k]
        is None by {
        lemma_playback_prefix(ps, rs, k);
        assert(playback_step(ps[k], ps[k + 1], rs[k]));
    }
}

/// No loaded command keeps the wildcard as its team.
pub proof fn lemma_no_wildcard_left(f: Seq<Seq<char>>, target: i32, c: PlaybackCommand)
    requires
        command_of(f, target, c),
    ensures
        c.team_id@ != "$"@,
{
    reveal_strlit("$");
    if f[1] == "$"@ {
        let t = target as int;
        lemma_nat_digits(abs(t));
        assert(is_digit(nat_digits(abs(t))[0]));
        assert(int_text(t)[0] != '$');
    }
}

/// A data line whose team field is the wildcard gives a command addressed
/// to the configured team.
pub proof fn lemma_wildcard_resolved(f: Seq<Seq<char>>, target: i32, c: PlaybackCommand)
    requires
        entry_valid(f),
        f[1] == "$"@,
        command_of(f, target, c),
    ensures
        command_text(c) == "CMD,"@ + int_text(target as int) + ",SIMP,"@ + payload_text(
            c.pressure as int,
        ),
{
}

} // verus!
