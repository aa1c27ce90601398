//! The connection history: one event per connection and disconnection, its
//! queries, and the renderings of durations and instants shown beside it.

use vstd::prelude::*;
use vstd::string::*;

use crate::text::{decimal, push_decimal, push_str};
use crate::timestamp::{
    at_or_after, seconds_before, seconds_between, spec_at_or_after, spec_seconds_between,
    Timestamp, MAX_SECS, MIN_SECS,
};

verus! {

// ─── Types ───────────────────────────────────────────────────────────────────

/// Whether a port appeared or went away.
#[derive(Clone, Copy, Debug, PartialEq, Eq, Structural)]
pub enum EventType {
    Connected,
    Disconnected,
}

/// The name of an event type.
pub open spec fn spec_event_name(t: EventType) -> Seq<char> {
    match t {
        EventType::Connected => "Connected"@,
        EventType::Disconnected => "Disconnected"@,
    }
}

impl EventType {
    /// The name of the event type: `Connected` or `Disconnected`.
    pub fn to_string(&self) -> (r: String)
        ensures
            r@ == spec_event_name(*self),
    {
        match self {
            EventType::Connected => String::from_str("Connected"),
            EventType::Disconnected => String::from_str("Disconnected"),
        }
    }
}

/// One connection or disconnection of a port.
#[derive(Clone, Debug)]
pub struct HistoryEvent {
    pub port: String,
    pub board_name: String,
    pub vid: Option<u16>,
    pub pid: Option<u16>,
    pub event_type: EventType,
    pub timestamp: Timestamp,
    pub session_id: String,
    /// Total uptime in seconds; only set for `Disconnected` events.
    pub uptime_secs: Option<i64>,
}

/// Every connection and disconnection recorded, oldest first.
#[derive(Clone, Debug)]
pub struct History {
    pub events: Vec<HistoryEvent>,
}

/// Every event's instant is representable.
pub open spec fn events_wf(events: Seq<HistoryEvent>) -> bool {
    forall|i: int| 0 <= i < events.len() ==> (#[trigger] events[i]).timestamp.wf()
}

/// One more event with a representable instant keeps every instant representable.
pub proof fn lemma_events_push_wf(events: Seq<HistoryEvent>, e: HistoryEvent)
    requires
        events_wf(events),
        e.timestamp.wf(),
    ensures
        events_wf(events.push(e)),
{
    assert forall|i: int| 0 <= i < events.push(e).len() implies (#[trigger] events.push(e)[i]).timestamp.wf() by {
        if i < events.len() {
            assert(events.push(e)[i] == events[i]);
        }
    }
}

/// The events at `cutoff` or later, in their order.
pub open spec fn events_from(events: Seq<HistoryEvent>, cutoff: Timestamp) -> Seq<HistoryEvent>
    decreases events.len(),
{
    if events.len() == 0 {
        Seq::empty()
    } else {
        let rest = events_from(events.drop_last(), cutoff);
        if spec_at_or_after(events.last().timestamp, cutoff) {
            rest.push(events.last())
        } else {
            rest
        }
    }
}

/// The disconnections at `cutoff` or later, in their order.
pub open spec fn disconnections_from(events: Seq<HistoryEvent>, cutoff: Timestamp) -> Seq<HistoryEvent>
    decreases events.len(),
{
    if events.len() == 0 {
        Seq::empty()
    } else {
        let rest = disconnections_from(events.drop_last(), cutoff);
        let e = events.last();
        if e.event_type == EventType::Disconnected && spec_at_or_after(e.timestamp, cutoff) {
            rest.push(e)
        } else {
            rest
        }
    }
}

/// The instant `secs` seconds before `now`.
pub open spec fn spec_seconds_before(now: Timestamp, secs: int) -> Timestamp {
    Timestamp { secs: (now.secs - secs) as i64, nanos: now.nanos }
}

/// `now` moved `secs` seconds back stays in the representable range.
pub open spec fn can_go_back(now: Timestamp, secs: int) -> bool {
    MIN_SECS <= now.secs - secs <= MAX_SECS
}

/// The days of history kept where no limit is set.
pub const DEFAULT_MAX_DAYS: u32 = 30;

/// The events within the history limits: those of the last `max_days` days
/// before `now` (30 where no limit is set; all of them where that many days
/// reach back past the earliest representable instant), then of those the
/// `max_entries` newest where there are more, in their order.
pub open spec fn retained(
    events: Seq<HistoryEvent>,
    max_days: Option<u32>,
    max_entries: Option<usize>,
    now: Timestamp,
) -> Seq<HistoryEvent> {
    let days: int = match max_days {
        Some(d) => d as int,
        None => DEFAULT_MAX_DAYS as int,
    };
    let recent = if can_go_back(now, days * 86400) {
        events_from(events, spec_seconds_before(now, days * 86400))
    } else {
        events
    };
    match max_entries {
        Some(m) => if recent.len() > m { recent.skip(recent.len() - m) } else { recent },
        None => recent,
    }
}

/// The events referred to by a list of references.
pub open spec fn derefs(v: Seq<&HistoryEvent>) -> Seq<HistoryEvent> {
    v.map_values(|e: &HistoryEvent| *e)
}

impl History {
    /// Every event's instant is representable.
    pub open spec fn wf(&self) -> bool {
        events_wf(self.events@)
    }

    /// An empty history.
    pub fn new() -> (r: History)
        ensures
            r.events@ == Seq::<HistoryEvent>::empty(),
    {
        History { events: Vec::new() }
    }

    /// Records one more event after all others.
    pub fn add_event(&mut self, event: HistoryEvent)
        ensures
            final(self).events@ == old(self).events@.push(event),
    {
        self.events.push(event);
    }

    /// The events of the last `days` days before `now`, in their order.
    pub fn events_since(&self, days: u32, now: Timestamp) -> (r: Vec<&HistoryEvent>)
        requires
            self.wf(),
            now.wf(),
            can_go_back(now, days * 86400),
        ensures
            derefs(r@) == events_from(self.events@, spec_seconds_before(now, days * 86400)),
    {
        let cutoff = seconds_before(now, days as i64 * 86400);
        let mut r: Vec<&HistoryEvent> = Vec::new();
        let mut i: usize = 0;
        assert(self.events@.take(0) =~= Seq::<HistoryEvent>::empty());
        while i < self.events.len()
            invariant
                self.wf(),
                cutoff.wf(),
                cutoff == spec_seconds_before(now, days * 86400),
                i <= self.events@.len(),
                derefs(r@) == events_from(self.events@.take(i as int), cutoff),
            decreases self.events.len() - i,
        {
            let e = &self.events[i];
            assert(self.events@.take(i + 1).drop_last() =~= self.events@.take(i as int));
            assert(self.events@[i as int].timestamp.wf());
            if at_or_after(e.timestamp, cutoff) {
                r.push(e);
            }
            assert(derefs(r@) =~= events_from(self.events@.take(i + 1), cutoff));
            i = i + 1;
        }
        assert(self.events@.take(i as int) =~= self.events@);
        r
    }

    /// The disconnections of the last `timeout_mins` minutes before `now`, in
    /// their order.
    pub fn recently_disconnected(&self, timeout_mins: i64, now: Timestamp) -> (r: Vec<&HistoryEvent>)
        requires
            self.wf(),
            now.wf(),
            -(i64::MAX / 1000) <= timeout_mins * 60 <= i64::MAX / 1000,
            can_go_back(now, timeout_mins * 60),
        ensures
            derefs(r@) == disconnections_from(self.events@, spec_seconds_before(now, timeout_mins * 60)),
    {
        let cutoff = seconds_before(now, timeout_mins * 60);
        let mut r: Vec<&HistoryEvent> = Vec::new();
        let mut i: usize = 0;
        assert(self.events@.take(0) =~= Seq::<HistoryEvent>::empty());
        while i < self.events.len()
            invariant
                self.wf(),
                cutoff.wf(),
                cutoff == spec_seconds_before(now, timeout_mins * 60),
                i <= self.events@.len(),
                derefs(r@) == disconnections_from(self.events@.take(i as int), cutoff),
            decreases self.events.len() - i,
        {
            let e = &self.events[i];
            assert(self.events@.take(i + 1).drop_last() =~= self.events@.take(i as int));
            assert(self.events@[i as int].timestamp.wf());
            if e.event_type == EventType::Disconnected && at_or_after(e.timestamp, cutoff) {
                r.push(e);
            }
            assert(derefs(r@) =~= disconnections_from(self.events@.take(i + 1), cutoff));
            i = i + 1;
        }
        assert(self.events@.take(i as int) =~= self.events@);
        r
    }

    /// Whether any event concerns `port`.
    pub fn was_previously_seen(&self, port: &str) -> (r: bool)
        ensures
            r == exists|i: int| 0 <= i < self.events@.len() && (#[trigger] self.events@[i]).port@ == port@,
    {
        let mut i: usize = 0;
        while i < self.events.len()
            invariant
                i <= self.events@.len(),
                forall|k: int| 0 <= k < i ==> (#[trigger] self.events@[k]).port@ != port@,
            decreases self.events.len() - i,
        {
            if crate::text::same_text(self.events[i].port.as_str(), port) {
                assert(self.events@[i as int].port@ == port@);
                return true;
            }
            i = i + 1;
        }
        false
    }

    /// Drops the events older than `max_days` days before `now`.
    pub fn cleanup(&mut self, max_days: u32, now: Timestamp)
        requires
            old(self).wf(),
            now.wf(),
            can_go_back(now, max_days * 86400),
        ensures
            final(self).events@ == events_from(old(self).events@, spec_seconds_before(now, max_days * 86400)),
            final(self).wf(),
    {
        let cutoff = seconds_before(now, max_days as i64 * 86400);
        let mut rest: Vec<HistoryEvent> = Vec::new();
        std::mem::swap(&mut rest, &mut self.events);
        let ghost all = rest@;
        let mut kept: Vec<HistoryEvent> = Vec::new();
        let n = rest.len();
        let mut i: usize = 0;
        assert(all.take(0) =~= Seq::<HistoryEvent>::empty());
        while i < n
            invariant
                n == all.len(),
                events_wf(all),
                cutoff.wf(),
                cutoff == spec_seconds_before(now, max_days * 86400),
                i <= n,
                rest@ == all.skip(i as int),
                kept@ == events_from(all.take(i as int), cutoff),
                events_wf(kept@),
            decreases n - i,
        {
            let e = rest.remove(0);
            assert(e == all[i as int]);
            assert(all.take(i + 1).drop_last() =~= all.take(i as int));
            assert(all.take(i + 1).last() == e);
            assert(rest@ =~= all.skip(i + 1));
            if at_or_after(e.timestamp, cutoff) {
                kept.push(e);
            }
            i = i + 1;
        }
        assert(all.take(n as int) =~= all);
        self.events = kept;
    }

    /// Keeps the history within its limits: the events of the last
    /// `max_days` days before `now` (30 where no limit is set), then of those
    /// at most the `max_entries` newest (see `retained`).
    pub fn enforce_limits(&mut self, max_days: Option<u32>, max_entries: Option<usize>, now: Timestamp)
        requires
            old(self).wf(),
            now.wf(),
        ensures
            final(self).events@ == retained(old(self).events@, max_days, max_entries, now),
            final(self).wf(),
    {
        let days: u32 = match max_days {
            Some(d) => d,
            None => DEFAULT_MAX_DAYS,
        };
        if now.secs - days as i64 * 86400 >= MIN_SECS {
            self.cleanup(days, now);
        }
        match max_entries {
            Some(m) => {
                if self.events.len() > m {
                    let at = self.events.len() - m;
                    let newest = self.events.split_off(at);
                    self.events = newest;
                }
            },
            None => {},
        }
    }
}

proof fn lemma_events_from_facts(events: Seq<HistoryEvent>, cutoff: Timestamp)
    ensures
        events_from(events, cutoff).len() <= events.len(),
        forall|i: int| 0 <= i < events_from(events, cutoff).len() ==>
            spec_at_or_after((#[trigger] events_from(events, cutoff)[i]).timestamp, cutoff),
        forall|i: int| 0 <= i < events_from(events, cutoff).len() ==>
            exists|j: int| 0 <= j < events.len() && events[j] == #[trigger] events_from(events, cutoff)[i],
        (forall|i: int| 0 <= i < events.len() ==> spec_at_or_after((#[trigger] events[i]).timestamp, cutoff))
            ==> events_from(events, cutoff) == events,
    decreases events.len(),
{
    if events.len() > 0 {
        let t = events.drop_last();
        lemma_events_from_facts(t, cutoff);
        let r = events_from(events, cutoff);
        let rt = events_from(t, cutoff);
        assert forall|i: int| 0 <= i < r.len() implies spec_at_or_after((#[trigger] r[i]).timestamp, cutoff) by {
            if i < rt.len() {
                assert(r[i] == rt[i]);
            }
        }
        assert forall|i: int| 0 <= i < r.len() implies exists|j: int| 0 <= j < events.len() && events[j] == #[trigger] r[i] by {
            if i < rt.len() {
                assert(r[i] == rt[i]);
                let j = choose|j: int| 0 <= j < t.len() && t[j] == #[trigger] rt[i];
                assert(events[j] == t[j]);
            } else {
                assert(events[events.len() - 1] == r[i]);
            }
        }
        if forall|i: int| 0 <= i < events.len() ==> spec_at_or_after((#[trigger] events[i]).timestamp, cutoff) {
            assert forall|i: int| 0 <= i < t.len() implies spec_at_or_after((#[trigger] t[i]).timestamp, cutoff) by {
                assert(t[i] == events[i]);
            }
            assert(spec_at_or_after(events[events.len() - 1].timestamp, cutoff));
            assert(t.push(events.last()) =~= events);
        }
    }
}

/// Dropping the events before a cutoff a second time drops nothing more.
pub proof fn lemma_cleanup_idempotent(events: Seq<HistoryEvent>, cutoff: Timestamp)
    ensures
        events_from(events_from(events, cutoff), cutoff) == events_from(events, cutoff),
{
    lemma_events_from_facts(events, cutoff);
    lemma_events_from_facts(events_from(events, cutoff), cutoff);
}

/// The history kept within its limits holds no event older than the day
/// limit allows (30 days where none is set), no more events than the entry
/// limit, only events it held before, and is left as it is when the limits
/// are applied again at the same instant.
pub proof fn lemma_retained_within_limits(
    events: Seq<HistoryEvent>,
    max_days: Option<u32>,
    max_entries: Option<usize>,
    now: Timestamp,
)
    ensures
        ({
            let days: int = match max_days {
                Some(d) => d as int,
                None => DEFAULT_MAX_DAYS as int,
            };
            let kept = retained(events, max_days, max_entries, now);
            &&& can_go_back(now, days * 86400) ==> forall|i: int| 0 <= i < kept.len() ==>
                spec_at_or_after((#[trigger] kept[i]).timestamp, spec_seconds_before(now, days * 86400))
            &&& max_entries matches Some(m) ==> kept.len() <= m
            &&& forall|i: int| 0 <= i < kept.len() ==> exists|j: int| 0 <= j < events.len() && events[j] == #[trigger] kept[i]
            &&& retained(kept, max_days, max_entries, now) == kept
        }),
{
    let days: int = match max_days {
        Some(d) => d as int,
        None => DEFAULT_MAX_DAYS as int,
    };
    let cutoff = spec_seconds_before(now, days * 86400);
    let recent = if can_go_back(now, days * 86400) { events_from(events, cutoff) } else { events };
    let kept = retained(events, max_days, max_entries, now);
    lemma_events_from_facts(events, cutoff);
    assert forall|i: int| 0 <= i < kept.len() implies exists|j: int| 0 <= j < recent.len() && recent[j] == #[trigger] kept[i] by {
        match max_entries {
            Some(m) => {
                if recent.len() > m {
                    assert(kept[i] == recent[i + (recent.len() - m)]);
                } else {
                    assert(recent[i] == kept[i]);
                }
            },
            None => {
                assert(recent[i] == kept[i]);
            },
        }
    }
    assert forall|i: int| 0 <= i < kept.len() implies exists|j: int| 0 <= j < events.len() && events[j] == #[trigger] kept[i] by {
        let j = choose|j: int| 0 <= j < recent.len() && recent[j] == #[trigger] kept[i];
        if can_go_back(now, days * 86400) {
            let j2 = choose|j2: int| 0 <= j2 < events.len() && events[j2] == #[trigger] events_from(events, cutoff)[j];
        }
    }
    if can_go_back(now, days * 86400) {
        assert forall|i: int| 0 <= i < kept.len() implies spec_at_or_after((#[trigger] kept[i]).timestamp, cutoff) by {
            let j = choose|j: int| 0 <= j < recent.len() && recent[j] == #[trigger] kept[i];
        }
        lemma_events_from_facts(kept, cutoff);
    }
}

// ─── Formatting helpers ──────────────────────────────────────────────────────

/// A duration as its two largest units: `Ns`, `Nm Ns`, `Nh Nm` or `Nd Nh`;
/// negative durations count as zero.
pub open spec fn spec_uptime(secs: int) -> Seq<char> {
    let s: nat = if secs < 0 { 0 } else { secs as nat };
    if s < 60 {
        decimal(s) + "s"@
    } else if s < 3600 {
        decimal(s / 60) + "m "@ + decimal(s % 60) + "s"@
    } else if s < 86400 {
        decimal(s / 3600) + "h "@ + decimal((s % 3600) / 60) + "m"@
    } else {
        decimal(s / 86400) + "d "@ + decimal((s % 86400) / 3600) + "h"@
    }
}

/// A duration as its two largest units: `Ns`, `Nm Ns`, `Nh Nm` or `Nd Nh`;
/// negative durations count as zero.
pub fn format_uptime(secs: i64) -> (r: String)
    ensures
        r@ == spec_uptime(secs as int),
{
    let s: u64 = if secs < 0 { 0 } else { secs as u64 };
    let mut out = String::new();
    if s < 60 {
        push_decimal(&mut out, s);
        push_str(&mut out, "s");
    } else if s < 3600 {
        push_decimal(&mut out, s / 60);
        push_str(&mut out, "m ");
        push_decimal(&mut out, s % 60);
        push_str(&mut out, "s");
    } else if s < 86400 {
        push_decimal(&mut out, s / 3600);
        push_str(&mut out, "h ");
        push_decimal(&mut out, (s % 3600) / 60);
        push_str(&mut out, "m");
    } else {
        push_decimal(&mut out, s / 86400);
        push_str(&mut out, "d ");
        push_decimal(&mut out, (s % 86400) / 3600);
        push_str(&mut out, "h");
    }
    assert(out@ =~= spec_uptime(secs as int));
    out
}

/// How long ago something happened, given the seconds since: `just now`
/// under five seconds, then in seconds, minutes, hours or days, singular for one.
pub open spec fn spec_relative(secs: int) -> Seq<char> {
    let s: nat = if secs < 0 { 0 } else { secs as nat };
    if s < 5 {
        "just now"@
    } else if s < 60 {
        decimal(s) + " seconds ago"@
    } else if s < 3600 {
        if s / 60 == 1 { "1 minute ago"@ } else { decimal(s / 60) + " minutes ago"@ }
    } else if s < 86400 {
        if s / 3600 == 1 { "1 hour ago"@ } else { decimal(s / 3600) + " hours ago"@ }
    } else {
        if s / 86400 == 1 { "1 day ago"@ } else { decimal(s / 86400) + " days ago"@ }
    }
}

/// How long ago something happened, given the seconds since (see `spec_relative`).
pub fn relative_from_secs(secs: i64) -> (r: String)
    ensures
        r@ == spec_relative(secs as int),
{
    let s: u64 = if secs < 0 { 0 } else { secs as u64 };
    let mut out = String::new();
    if s < 5 {
        push_str(&mut out, "just now");
    } else if s < 60 {
        push_decimal(&mut out, s);
        push_str(&mut out, " seconds ago");
    } else if s < 3600 {
        if s / 60 == 1 {
            push_str(&mut out, "1 minute ago");
        } else {
            push_decimal(&mut out, s / 60);
            push_str(&mut out, " minutes ago");
        }
    } else if s < 86400 {
        if s / 3600 == 1 {
            push_str(&mut out, "1 hour ago");
        } else {
            push_decimal(&mut out, s / 3600);
            push_str(&mut out, " hours ago");
        }
    } else {
        if s / 86400 == 1 {
            push_str(&mut out, "1 day ago");
        } else {
            push_decimal(&mut out, s / 86400);
            push_str(&mut out, " days ago");
        }
    }
    assert(out@ =~= spec_relative(secs as int));
    out
}

/// How long before `now` the instant `dt` lies, as `spec_relative` words it.
pub fn format_relative(dt: Timestamp, now: Timestamp) -> (r: String)
    requires
        dt.wf(),
        now.wf(),
    ensures
        r@ == spec_relative(spec_seconds_between(now, dt)),
{
    relative_from_secs(seconds_between(now, dt))
}

/// A UTC offset in seconds east of UTC that chrono's `FixedOffset` takes:
/// strictly less than a day either way.
pub open spec fn offset_ok(utc_offset: i32) -> bool {
    -86400 < utc_offset < 86400
}

/// The proleptic Gregorian date (year, month, day) of the day `days` days
/// after 1970-01-01.
pub open spec fn civil_date(days: int) -> (int, int, int) {
    let z = days + 719468;
    let era = z / 146097;
    let doe = z - era * 146097;
    let yoe = (doe - doe / 1460 + doe / 36524 - doe / 146096) / 365;
    let doy = doe - (365 * yoe + yoe / 4 - yoe / 100);
    let mp = (5 * doy + 2) / 153;
    let day = doy - (153 * mp + 2) / 5 + 1;
    let month = if mp < 10 { mp + 3 } else { mp - 9 };
    let year = yoe + era * 400 + if month <= 2 { 1int } else { 0int };
    (year, month, day)
}

/// The decimal digits of `n`, with leading zeros up to `width` digits.
pub open spec fn zero_padded(n: nat, width: nat) -> Seq<char> {
    let digits = decimal(n);
    Seq::new((if digits.len() < width { width - digits.len() } else { 0 }) as nat, |i: int| '0') + digits
}

/// A year as chrono's `%Y` writes it: four digits, zero padded, for the
/// years 0 to 9999; otherwise its sign, then at least four digits.
pub open spec fn year_text(year: int) -> Seq<char> {
    if 0 <= year <= 9999 {
        zero_padded(year as nat, 4)
    } else if year < 0 {
        seq!['-'] + zero_padded((-year) as nat, 4)
    } else {
        seq!['+'] + zero_padded(year as nat, 4)
    }
}

/// The wall-clock text `%Y-%m-%d %H:%M:%S` of the instant `local_secs`
/// seconds after 1970-01-01T00:00:00 in local time.
pub open spec fn wall_clock_text(local_secs: int) -> Seq<char> {
    let (year, month, day) = civil_date(local_secs / 86400);
    let sod = local_secs % 86400;
    year_text(year) + seq!['-'] + zero_padded(month as nat, 2) + seq!['-'] + zero_padded(day as nat, 2)
        + seq![' '] + zero_padded((sod / 3600) as nat, 2) + seq![':'] + zero_padded(((sod % 3600) / 60) as nat, 2)
        + seq![':'] + zero_padded((sod % 60) as nat, 2)
}

/// chrono's `DateTime::from_timestamp`, `with_timezone` to the fixed offset
/// `FixedOffset::east_opt(utc_offset)`, then `format("%Y-%m-%d %H:%M:%S")`:
/// the wall-clock text of the instant moved by the offset (see
/// `wall_clock_text`); the nanoseconds show in none of the fields. The
/// instant is in chrono's range and the offset is one that `east_opt` takes,
/// so neither `unwrap` fails.
#[verifier::external_body]
fn format_at_offset(secs: i64, nanos: u32, utc_offset: i32) -> (r: String)
    requires
        MIN_SECS <= secs <= MAX_SECS,
        nanos < 1_000_000_000,
        offset_ok(utc_offset),
    ensures
        r@ == wall_clock_text(secs + utc_offset),
{
    let utc = chrono::DateTime::from_timestamp(secs, nanos).unwrap();
    let zone = chrono::FixedOffset::east_opt(utc_offset).unwrap();
    utc.with_timezone(&zone).format("%Y-%m-%d %H:%M:%S").to_string()
}

/// The instant as wall-clock time at `utc_offset` seconds east of UTC (the
/// local offset), `YYYY-MM-DD HH:MM:SS` (see `wall_clock_text`).
pub fn format_local(dt: Timestamp, utc_offset: i32) -> (r: String)
    requires
        dt.wf(),
        offset_ok(utc_offset),
    ensures
        r@ == wall_clock_text(dt.secs + utc_offset),
{
    format_at_offset(dt.secs, dt.nanos, utc_offset)
}

} // verus!
