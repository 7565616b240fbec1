//! Bookkeeping of a native BC debug session: breakpoint history with a cap,
//! file → breakpoint-id mapping, breakpoint records and event timestamps.
//!
//! The network session itself (connect, attach, SignalR events) lives with
//! the caller; this module keeps the state the daemon tracks on top of it.

use std::collections::VecDeque;
use std::time::SystemTime;

use vstd::prelude::*;

use crate::calendar::{date_of_day, days_to_civil, lemma_date_of_day};
use crate::numfmt::{digits, fmt_int_padded, push_padded, push_signed_padded, zero_pad};
use crate::text::{chars_of, eq_ignore_ascii_case, eq_ignore_case, opt_view, vec_eq};

verus! {

/// Upper bound on the in-memory Break-event history; oldest hits are evicted first.
pub const HISTORY_CAP: usize = 10_000;

/// Offset of 1970-01-01 in the day numbering of [`days_to_civil`].
pub const UNIX_EPOCH_DAY: i64 = 719_468;

/// A source location reported for a breakpoint hit.
#[derive(Debug, Clone, PartialEq, Eq)]
pub struct Location {
    pub file: String,
    pub line: u32,
    pub column: u32,
    pub procedure: Option<String>,
}

/// A variable shown in a debug state.
#[derive(Debug)]
pub struct Variable {
    pub name: String,
    pub value: String,
    pub var_type: String,
    pub fields: Vec<Variable>,
}

/// One recorded Break event.
#[derive(Debug)]
pub struct BreakpointHit {
    pub seq: u32,
    pub breakpoint_id: i64,
    pub timestamp: String,
    pub location: Location,
    pub variables: Vec<Variable>,
}

/// The client-facing record of one requested breakpoint.
#[derive(Debug, Clone, PartialEq, Eq)]
pub struct BreakpointInfo {
    pub id: i64,
    pub file: String,
    pub line: u32,
    pub condition: Option<String>,
    pub verified: bool,
}

/// The last `min(len, cap)` elements of `s`.
pub open spec fn keep_last<T>(s: Seq<T>, cap: nat) -> Seq<T> {
    if s.len() <= cap {
        s
    } else {
        s.skip(s.len() - cap)
    }
}

/// Append a Break event to history, then evict from the front until at most
/// `cap` entries remain.
pub fn push_with_cap(history: &mut VecDeque<BreakpointHit>, hit: BreakpointHit, cap: usize)
    ensures
        final(history)@ == keep_last(old(history)@.push(hit), cap as nat),
{
    let ghost full = old(history)@.push(hit);
    history.push_back(hit);
    while history.len() > cap
        invariant
            full.len() >= history@.len(),
            history@.len() >= cap || history@.len() == full.len(),
            history@ == full.skip(full.len() - history@.len()),
        decreases history@.len(),
    {
        let _ = history.pop_front();
        assert(history@ =~= full.skip(full.len() - history@.len()));
    }
    assert(history@ =~= keep_last(full, cap as nat));
}

/// The breakpoint record for `file:line`: an empty condition is no condition.
pub fn make_bp_info(file: &str, line: u32, condition: &str, id: i64, verified: bool) -> (r:
    BreakpointInfo)
    ensures
        r.id == id,
        r.file@ == file@,
        r.line == line,
        r.verified == verified,
        condition@.len() == 0 ==> r.condition is None,
        condition@.len() != 0 ==> (r.condition matches Some(c) && c@ == condition@),
{
    BreakpointInfo {
        id,
        file: file.to_owned(),
        line,
        condition: if condition.is_empty() {
            None
        } else {
            Some(condition.to_owned())
        },
        verified,
    }
}

/// `YYYY-MM-DDThh:mm:ssZ` for `secs` seconds after the Unix epoch (UTC); the
/// year is the calendar year truncated to `i32`, zero-padded to four places.
pub open spec fn timestamp_text(secs: nat) -> Seq<char> {
    let days = secs / 86400;
    let hms = secs % 86400;
    let date = date_of_day(days as int + 719468);
    fmt_int_padded((date.0 as i32) as int, 4) + seq!['-'] + zero_pad(digits(date.1 as nat), 2)
        + seq!['-'] + zero_pad(digits(date.2 as nat), 2) + seq!['T'] + zero_pad(
        digits(hms / 3600),
        2,
    ) + seq![':'] + zero_pad(digits((hms % 3600) / 60), 2) + seq![':'] + zero_pad(
        digits(hms % 60),
        2,
    ) + seq!['Z']
}

/// Renders `secs` seconds after the Unix epoch as a UTC ISO-8601 timestamp.
pub fn format_unix_secs(secs: u64) -> (r: String)
    ensures
        r@ == timestamp_text(secs as nat),
{
    let days = secs / 86_400;
    let hms = secs % 86_400;
    let h = hms / 3600;
    let m = (hms % 3600) / 60;
    let s = hms % 60;
    let (y, mo, d) = days_to_civil(days as i64 + UNIX_EPOCH_DAY);
    proof {
        lemma_date_of_day(days as int + 719468);
    }
    let mut out = String::new();
    push_signed_padded(&mut out, y as i64, 4);
    out.push('-');
    push_padded(&mut out, mo as u64, 2);
    out.push('-');
    push_padded(&mut out, d as u64, 2);
    out.push('T');
    push_padded(&mut out, h, 2);
    out.push(':');
    push_padded(&mut out, m, 2);
    out.push(':');
    push_padded(&mut out, s, 2);
    out.push('Z');
    assert(out@ =~= timestamp_text(secs as nat));
    out
}

/// `std::time::SystemTime`, carried through opaquely.
#[verifier::external_type_specification]
#[verifier::external_body]
pub struct ExSystemTime(std::time::SystemTime);

/// What `t.duration_since(UNIX_EPOCH)` gives in whole seconds
/// (`Duration::as_secs`): `None` when `t` is before the epoch.
pub uninterp spec fn unix_secs_of(t: SystemTime) -> Option<u64>;

/// Whole seconds from the Unix epoch to `t`; `None` when `t` is before the
/// epoch. The result is [`unix_secs_of`] of `t`; which number that is for a
/// given time is not stated (a `SystemTime` is opaque here).
#[verifier::external_body]
fn secs_since_epoch(t: &SystemTime) -> (r: Option<u64>)
    ensures
        r == unix_secs_of(*t),
{
    t.duration_since(std::time::UNIX_EPOCH).ok().map(|d| d.as_secs())
}

/// Renders `t` as a UTC ISO-8601 timestamp (seconds resolution); a time
/// before the epoch renders as the epoch.
pub fn format_event_timestamp(t: SystemTime) -> (r: String)
    ensures
        r@ == timestamp_text(
            match unix_secs_of(t) {
                Some(s) => s as nat,
                None => 0nat,
            },
        ),
{
    let secs = match secs_since_epoch(&t) {
        Some(s) => s,
        None => 0,
    };
    format_unix_secs(secs)
}

/// Some variable of `hit` is named `filter`, ignoring ASCII case.
pub open spec fn hit_has_var(hit: BreakpointHit, filter: Seq<char>) -> bool {
    exists|k: int|
        0 <= k < hit.variables@.len() && eq_ignore_ascii_case(
            #[trigger] hit.variables@[k].name@,
            filter,
        )
}

/// Whether some variable of `hit` is named `filter` (ASCII case-insensitive).
pub fn hit_mentions(hit: &BreakpointHit, filter: &Vec<char>) -> (b: bool)
    ensures
        b == hit_has_var(*hit, filter@),
{
    let mut k: usize = 0;
    while k < hit.variables.len()
        invariant
            k <= hit.variables@.len(),
            forall|j: int|
                0 <= j < k ==> !eq_ignore_ascii_case(#[trigger] hit.variables@[j].name@, filter@),
        decreases hit.variables@.len() - k,
    {
        let name = chars_of(hit.variables[k].name.as_str());
        if eq_ignore_case(&name, filter) {
            return true;
        }
        k = k + 1;
    }
    false
}

/// State the daemon keeps for one native debug session.
pub struct NativeDebugSession {
    /// The BC connection id of the session.
    connection_id: String,
    /// Breakpoint ids currently set, per file.
    breakpoints: Vec<(String, Vec<i64>)>,
    /// Recorded Break events, oldest first, at most [`HISTORY_CAP`].
    history: VecDeque<BreakpointHit>,
}

impl NativeDebugSession {
    /// Breakpoint ids per file, as pairs of file name and ids.
    pub closed spec fn breakpoint_map(&self) -> Seq<(Seq<char>, Seq<i64>)> {
        Seq::new(self.breakpoints@.len(), |k: int| (self.breakpoints@[k].0@, self.breakpoints@[k].1@))
    }

    /// The BC connection id.
    pub closed spec fn connection(&self) -> Seq<char> {
        self.connection_id@
    }

    /// The history never exceeds [`HISTORY_CAP`].
    pub closed spec fn wf(&self) -> bool {
        self.history@.len() <= HISTORY_CAP
    }

    /// The recorded hits, oldest first.
    pub closed spec fn history_seq(&self) -> Seq<BreakpointHit> {
        self.history@
    }

    /// A session with no breakpoints and no history.
    pub fn from_parts(connection_id: String) -> (r: Self)
        ensures
            r.wf(),
            r.connection() == connection_id@,
            r.breakpoint_map().len() == 0,
            r.history_seq().len() == 0,
    {
        NativeDebugSession { connection_id, breakpoints: Vec::new(), history: VecDeque::new() }
    }

    /// The BC connection id.
    pub fn session_id(&self) -> (r: &str)
        ensures
            r@ == self.connection(),
    {
        self.connection_id.as_str()
    }

    /// Records hits in order, each through [`push_with_cap`] with [`HISTORY_CAP`].
    pub fn seed_history(&mut self, hits: Vec<BreakpointHit>)
        requires
            old(self).wf(),
        ensures
            final(self).wf(),
            final(self).history_seq() == keep_last(
                old(self).history_seq() + hits@,
                HISTORY_CAP as nat,
            ),
            final(self).connection() == old(self).connection(),
            final(self).breakpoint_map() == old(self).breakpoint_map(),
    {
        let ghost h0 = self.history@;
        let ghost all = hits@;
        let mut rest = hits;
        let total = rest.len();
        let mut i: usize = 0;
        assert(h0 + all.take(0) =~= h0);
        assert(all.skip(0) =~= all);
        while rest.len() > 0
            invariant
                i + rest@.len() == all.len(),
                all.len() == total,
                h0.len() <= HISTORY_CAP,
                rest@ == all.skip(i as int),
                self.history@ == keep_last(h0 + all.take(i as int), HISTORY_CAP as nat),
                self.connection_id == old(self).connection_id,
                self.breakpoints == old(self).breakpoints,
            decreases rest@.len(),
        {
            let ghost before = self.history@;
            let h = rest.remove(0);
            proof {
                assert(h == all[i as int]);
                let a = h0 + all.take(i as int);
                let b = h0 + all.take(i + 1);
                assert(b =~= a.push(h));
                if a.len() <= HISTORY_CAP {
                    assert(before == a);
                } else {
                    assert(before.push(h) =~= a.push(h).skip(a.len() - HISTORY_CAP));
                    assert(keep_last(before.push(h), HISTORY_CAP as nat) =~= keep_last(
                        b,
                        HISTORY_CAP as nat,
                    ));
                }
            }
            push_with_cap(&mut self.history, h, HISTORY_CAP);
            i = i + 1;
            assert(rest@ =~= all.skip(i as int));
        }
        assert(all.take(all.len() as int) == all);
    }

    /// Appends one Break hit with sequence number one past the newest one (or 1).
    pub fn record_break(&mut self, location: Location, timestamp: String)
        requires
            old(self).wf(),
        ensures
            final(self).wf(),
            ({
                let old_h = old(self).history_seq();
                let next = if old_h.len() == 0 {
                    1int
                } else {
                    old_h.last().seq + 1
                };
                let h = final(self).history_seq().last();
                &&& next > u32::MAX ==> final(self).history_seq() == old_h
                &&& next <= u32::MAX ==> {
                    &&& final(self).history_seq() == keep_last(old_h.push(h), HISTORY_CAP as nat)
                    &&& h.seq == next
                    &&& h.breakpoint_id == 0
                    &&& h.timestamp == timestamp
                    &&& h.location == location
                    &&& h.variables@.len() == 0
                }
            }),
            final(self).connection() == old(self).connection(),
            final(self).breakpoint_map() == old(self).breakpoint_map(),
    {
        let n = self.history.len();
        let next: u32 = if n == 0 {
            1
        } else {
            let last = self.history[n - 1].seq;
            if last == u32::MAX {
                return;
            }
            last + 1
        };
        let hit = BreakpointHit {
            seq: next,
            breakpoint_id: 0,
            timestamp,
            location,
            variables: Vec::new(),
        };
        push_with_cap(&mut self.history, hit, HISTORY_CAP);
    }

    /// Recorded hits, oldest first; with a filter, only those having a
    /// variable of that name (ASCII case-insensitive).
    pub fn history(&self, var_filter: Option<&str>) -> (r: Vec<&BreakpointHit>)
        ensures
            var_filter is None ==> r@.map_values(|h: &BreakpointHit| *h) == self.history_seq(),
            var_filter matches Some(f) ==> r@.map_values(|h: &BreakpointHit| *h) == self.history_seq().filter(
                |h: BreakpointHit| hit_has_var(h, f@),
            ),
    {
        let mut out: Vec<&BreakpointHit> = Vec::new();
        let filter = match var_filter {
            Some(f) => Some(chars_of(f)),
            None => None,
        };
        let mut i: usize = 0;
        while i < self.history.len()
            invariant
                i <= self.history@.len(),
                var_filter is None ==> filter is None,
                var_filter matches Some(f) ==> (filter matches Some(v) && v@ == f@),
                var_filter is None ==> out@.map_values(|h: &BreakpointHit| *h) == self.history@.take(i as int),
                var_filter matches Some(f) ==> out@.map_values(|h: &BreakpointHit| *h) == self.history@.take(i as int).filter(
                    |h: BreakpointHit| hit_has_var(h, f@),
                ),
            decreases self.history@.len() - i,
        {
            let h = &self.history[i];
            proof {
                reveal_with_fuel(Seq::<_>::filter, 1);
                assert(self.history@.take(i + 1).drop_last() == self.history@.take(i as int));
            }
            match &filter {
                Some(v) => {
                    if hit_mentions(h, v) {
                        out.push(h);
                    }
                },
                None => {
                    out.push(h);
                },
            }
            i = i + 1;
        }
        assert(self.history@.take(self.history@.len() as int) == self.history@);
        out
    }

    /// Removes and returns the breakpoint ids recorded for `file` (the ids the
    /// caller then clears on the server before setting new ones).
    pub fn take_breakpoints(&mut self, file: &str) -> (r: Option<Vec<i64>>)
        requires
            old(self).wf(),
        ensures
            final(self).wf(),
            final(self).connection() == old(self).connection(),
            final(self).history_seq() == old(self).history_seq(),
            r is None ==> final(self).breakpoint_map() == old(self).breakpoint_map() && forall|k: int|
                0 <= k < old(self).breakpoint_map().len() ==> (#[trigger] old(
                    self,
                ).breakpoint_map()[k]).0 != file@,
            r matches Some(ids) ==> exists|k: int|
                0 <= k < old(self).breakpoint_map().len() && (#[trigger] old(
                    self,
                ).breakpoint_map()[k]).0 == file@ && ids@ == old(self).breakpoint_map()[k].1
                    && final(self).breakpoint_map() == old(self).breakpoint_map().remove(k),
    {
        let key = chars_of(file);
        let mut k: usize = 0;
        while k < self.breakpoints.len()
            invariant
                k <= self.breakpoints@.len(),
                key@ == file@,
                self.breakpoints == old(self).breakpoints,
                self.history == old(self).history,
                self.connection_id == old(self).connection_id,
                self.wf(),
                forall|j: int| 0 <= j < k ==> (#[trigger] self.breakpoint_map()[j]).0 != file@,
            decreases self.breakpoints@.len() - k,
        {
            let name = chars_of(self.breakpoints[k].0.as_str());
            if vec_eq(&name, &key) {
                let ghost before = self.breakpoint_map();
                assert(before[k as int].0 == file@);
                let (_, ids) = self.breakpoints.remove(k);
                assert(self.breakpoint_map() =~= before.remove(k as int));
                assert(ids@ == before[k as int].1);
                assert(self.history == old(self).history);
                return Some(ids);
            }
            k = k + 1;
        }
        None
    }

    /// Records the ids newly set for `file` (nothing when there are none).
    pub fn store_breakpoints(&mut self, file: &str, ids: Vec<i64>)
        requires
            old(self).wf(),
        ensures
            final(self).wf(),
            final(self).connection() == old(self).connection(),
            final(self).history_seq() == old(self).history_seq(),
            ids@.len() == 0 ==> final(self).breakpoint_map() == old(self).breakpoint_map(),
            ids@.len() != 0 ==> final(self).breakpoint_map() == old(self).breakpoint_map().push(
                (file@, ids@),
            ),
    {
        if ids.len() > 0 {
            let ghost before = self.breakpoint_map();
            self.breakpoints.push((file.to_owned(), ids));
            assert(self.breakpoint_map() =~= before.push((file@, self.breakpoints@.last().1@)));
        }
    }
}

// ---------------------------------------------------------------------------
// Variables reported by the server
// ---------------------------------------------------------------------------

/// A JSON value as the reply readers see it: a string, an integer that
/// fits `i64`, a boolean, or anything else.
#[derive(Debug, Clone)]
pub enum JsonScalar {
    Str(String),
    Int(i64),
    Bool(bool),
    Other,
}

/// The members of a JSON object, in order: each key with its value.
pub type JsonMembers = Vec<(String, JsonScalar)>;

/// The value of the first member called `k`, if any.
pub open spec fn member_of(m: Seq<(String, JsonScalar)>, k: Seq<char>) -> Option<JsonScalar>
    decreases m.len(),
{
    if m.len() == 0 {
        None
    } else if m[0].0@ == k {
        Some(m[0].1)
    } else {
        member_of(m.drop_first(), k)
    }
}

/// The value of `a`, or of `b` when there is no `a`.
pub open spec fn first_of2(m: Seq<(String, JsonScalar)>, a: Seq<char>, b: Seq<char>) -> Option<JsonScalar> {
    match member_of(m, a) {
        Some(v) => Some(v),
        None => member_of(m, b),
    }
}

/// The value of `a`, else of `b`, else of `c`.
pub open spec fn first_of3(m: Seq<(String, JsonScalar)>, a: Seq<char>, b: Seq<char>, c: Seq<char>) -> Option<JsonScalar> {
    match member_of(m, a) {
        Some(v) => Some(v),
        None => first_of2(m, b, c),
    }
}

/// The text of a value that is a string.
pub open spec fn str_of(v: Option<JsonScalar>) -> Option<Seq<char>> {
    match v {
        Some(JsonScalar::Str(s)) => Some(s@),
        _ => None,
    }
}

/// The text of the first of the keys `a`, `b` that is present, when its
/// value is a string.
pub open spec fn text2(m: Seq<(String, JsonScalar)>, a: Seq<char>, b: Seq<char>) -> Option<Seq<char>> {
    str_of(first_of2(m, a, b))
}

/// The text of the first of the keys `a`, `b`, `c` that is present, when
/// its value is a string.
pub open spec fn text3(m: Seq<(String, JsonScalar)>, a: Seq<char>, b: Seq<char>, c: Seq<char>) -> Option<Seq<char>> {
    str_of(first_of3(m, a, b, c))
}

/// A variable as plain values: name, value, type.
pub type VariableV = (Seq<char>, Seq<char>, Seq<char>);

pub open spec fn variable_view(v: Variable) -> VariableV {
    (v.name@, v.value@, v.var_type@)
}

/// The variables of the entries from index `n` on: entries that are objects
/// with a string `Name` (or `name`); the value from `Value` (or `value`),
/// the type from `TypeName` (or `typeName`, or `Type`), empty when missing.
pub open spec fn bc_variables(entries: Seq<Option<JsonMembers>>, n: int) -> Seq<VariableV>
    decreases n,
{
    if n <= 0 || n > entries.len() {
        seq![]
    } else {
        let prev = bc_variables(entries, n - 1);
        match entries[n - 1] {
            None => prev,
            Some(m) => match text2(m@, "Name"@, "name"@) {
                None => prev,
                Some(name) => prev.push(
                    (
                        name,
                        match text2(m@, "Value"@, "value"@) {
                            Some(v) => v,
                            None => seq![],
                        },
                        match text3(m@, "TypeName"@, "typeName"@, "Type"@) {
                            Some(v) => v,
                            None => seq![],
                        },
                    ),
                ),
            },
        }
    }
}

fn find_member<'a>(m: &'a JsonMembers, k: &str) -> (r: Option<&'a JsonScalar>)
    ensures
        match r {
            Some(v) => member_of(m@, k@) == Some(*v),
            None => member_of(m@, k@) is None,
        },
{
    let kv = chars_of(k);
    let mut i: usize = 0;
    assert(m@.skip(0) =~= m@);
    while i < m.len()
        invariant
            i <= m@.len(),
            kv@ == k@,
            member_of(m@, k@) == member_of(m@.skip(i as int), k@),
        decreases m@.len() - i,
    {
        assert(m@.skip(i as int)[0] == m@[i as int]);
        if vec_eq(&chars_of(m[i].0.as_str()), &kv) {
            return Some(&m[i].1);
        }
        assert(m@.skip(i as int).drop_first() =~= m@.skip(i + 1));
        i = i + 1;
    }
    None
}

fn first_member<'a>(m: &'a JsonMembers, k1: &str, k2: &str, k3: Option<&str>) -> (r: Option<&'a JsonScalar>)
    ensures
        match r {
            Some(v) => Some(*v),
            None => None,
        } == match k3 {
            Some(k) => first_of3(m@, k1@, k2@, k@),
            None => first_of2(m@, k1@, k2@),
        },
{
    match find_member(m, k1) {
        Some(v) => {
            return Some(v);
        },
        None => {},
    }
    match k3 {
        Some(k) => match find_member(m, k2) {
            Some(v) => Some(v),
            None => find_member(m, k),
        },
        None => find_member(m, k2),
    }
}

pub(crate) fn text_of(m: &JsonMembers, k1: &str, k2: &str, k3: Option<&str>) -> (r: Option<String>)
    ensures
        opt_view(r) == match k3 {
            Some(k) => text3(m@, k1@, k2@, k@),
            None => text2(m@, k1@, k2@),
        },
{
    match first_member(m, k1, k2, k3) {
        Some(JsonScalar::Str(s)) => Some(s.clone()),
        _ => None,
    }
}

/// The variables of a variables response: nothing unless it is an array;
/// one variable per entry that has a string name (see [`bc_variables`]).
pub fn parse_bc_variables(json: &Option<Vec<Option<JsonMembers>>>) -> (r: Vec<Variable>)
    ensures
        r@.map_values(|v: Variable| variable_view(v)) == match json {
            Some(entries) => bc_variables(entries@, entries@.len() as int),
            None => seq![],
        },
        forall|i: int| 0 <= i < r@.len() ==> (#[trigger] r@[i]).fields@.len() == 0,
{
    let mut out: Vec<Variable> = Vec::new();
    let entries = match json {
        Some(e) => e,
        None => {
            assert(out@.map_values(|v: Variable| variable_view(v)) =~= Seq::<VariableV>::empty());
            return out;
        },
    };
    let mut i: usize = 0;
    assert(out@.map_values(|v: Variable| variable_view(v)) =~= Seq::<VariableV>::empty());
    while i < entries.len()
        invariant
            i <= entries@.len(),
            out@.map_values(|v: Variable| variable_view(v)) == bc_variables(entries@, i as int),
            forall|k: int| 0 <= k < out@.len() ==> (#[trigger] out@[k]).fields@.len() == 0,
        decreases entries@.len() - i,
    {
        match &entries[i] {
            None => {},
            Some(m) => {
                match text_of(m, "Name", "name", None) {
                    None => {},
                    Some(name) => {
                        let value = match text_of(m, "Value", "value", None) {
                            Some(v) => v,
                            None => String::new(),
                        };
                        let var_type = match text_of(m, "TypeName", "typeName", Some("Type")) {
                            Some(v) => v,
                            None => String::new(),
                        };
                        let v = Variable { name, value, var_type, fields: Vec::new() };
                        let ghost o0 = out@;
                        out.push(v);
                        assert(out@.map_values(|v: Variable| variable_view(v)) =~= o0.map_values(
                            |v: Variable| variable_view(v),
                        ).push(variable_view(v)));
                        assert forall|k: int| 0 <= k < out@.len() implies (#[trigger] out@[k]).fields@.len()
                            == 0 by {
                            if k < o0.len() {
                                assert(out@[k] == o0[k]);
                            }
                        }
                    },
                }
            },
        }
        i = i + 1;
    }
    out
}

/// The value and the type of an evaluation reply, each empty when the
/// reply does not carry it as a string (an object that is not one has no
/// members).
pub fn eval_fields(reply: &JsonMembers) -> (r: (String, String))
    ensures
        r.0@ == match text2(reply@, "Value"@, "value"@) {
            Some(v) => v,
            None => seq![],
        },
        r.1@ == match text3(reply@, "TypeName"@, "typeName"@, "Type"@) {
            Some(v) => v,
            None => seq![],
        },
{
    let value = match text_of(reply, "Value", "value", None) {
        Some(v) => v,
        None => String::new(),
    };
    let var_type = match text_of(reply, "TypeName", "typeName", Some("Type")) {
        Some(v) => v,
        None => String::new(),
    };
    (value, var_type)
}

// ---------------------------------------------------------------------------
// Breakpoint replies
// ---------------------------------------------------------------------------

/// The integer of a value that is one.
pub open spec fn int_of(v: Option<JsonScalar>) -> Option<i64> {
    match v {
        Some(JsonScalar::Int(i)) => Some(i),
        _ => None,
    }
}

/// The boolean of a value that is one.
pub open spec fn bool_of(v: Option<JsonScalar>) -> Option<bool> {
    match v {
        Some(JsonScalar::Bool(b)) => Some(b),
        _ => None,
    }
}

/// `info` records breakpoint `id` at `file:line` with condition text `cond`
/// (none when empty).
pub open spec fn bp_info_is(info: BreakpointInfo, file: Seq<char>, line: u32, cond: Seq<char>, id: i64, verified: bool) -> bool {
    &&& info.id == id
    &&& info.file@ == file
    &&& info.line == line
    &&& info.verified == verified
    &&& cond.len() == 0 ==> info.condition is None
    &&& cond.len() != 0 ==> (info.condition matches Some(c) && c@ == cond)
}

/// The id a reply to an add-breakpoint request gives (`Id`, else `id`; 0
/// when it is not an integer).
pub open spec fn reply_id(m: Seq<(String, JsonScalar)>) -> i64 {
    match int_of(first_of2(m, "Id"@, "id"@)) {
        Some(i) => i,
        None => 0,
    }
}

/// Whether a reply reports the breakpoint verified (`Verified`, else
/// `verified`; verified unless it says otherwise as a boolean).
pub open spec fn reply_verified(m: Seq<(String, JsonScalar)>) -> bool {
    match bool_of(first_of2(m, "Verified"@, "verified"@)) {
        Some(b) => b,
        None => true,
    }
}

/// What one add-breakpoint request at `file:line` comes to: with a reply
/// (`Some`), the breakpoint it reports and its id to remember; when the
/// request failed (`None`), an unverified breakpoint with id 0 and nothing
/// to remember. A missing condition is the empty one.
pub fn breakpoint_outcome(file: &str, line: u32, condition: Option<&str>, reply: &Option<JsonMembers>) -> (r: (
    BreakpointInfo,
    Option<i64>,
))
    ensures
        ({
            let cond = match condition {
                Some(c) => c@,
                None => Seq::<char>::empty(),
            };
            match reply {
                Some(m) => r.1 == Some(reply_id(m@)) && bp_info_is(
                    r.0,
                    file@,
                    line,
                    cond,
                    reply_id(m@),
                    reply_verified(m@),
                ),
                None => r.1 is None && bp_info_is(r.0, file@, line, cond, 0, false),
            }
        }),
{
    let cond: &str = match condition {
        Some(c) => c,
        None => "",
    };
    proof {
        reveal_strlit("");
    }
    match reply {
        Some(m) => {
            let id: i64 = match first_member(m, "Id", "id", None) {
                Some(JsonScalar::Int(i)) => *i,
                _ => 0,
            };
            let verified: bool = match first_member(m, "Verified", "verified", None) {
                Some(JsonScalar::Bool(b)) => *b,
                _ => true,
            };
            (make_bp_info(file, line, cond, id, verified), Some(id))
        },
        None => (make_bp_info(file, line, cond, 0, false), None),
    }
}

/// The `BreakpointExitReason` a step sends the server: 2 to step in, 3 to
/// step out, 1 (step over) for any other step type.
pub open spec fn step_reason(step_type: Seq<char>) -> u32 {
    if step_type == "in"@ {
        2
    } else if step_type == "out"@ {
        3
    } else {
        1
    }
}

/// The exit reason for a step of type `step_type` (see [`step_reason`]).
pub fn step_exit_reason(step_type: &str) -> (r: u32)
    ensures
        r == step_reason(step_type@),
{
    let v = chars_of(step_type);
    if vec_eq(&v, &chars_of("in")) {
        2
    } else if vec_eq(&v, &chars_of("out")) {
        3
    } else {
        1
    }
}

} // verus!
