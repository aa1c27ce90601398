//! What the listings show: the rows of the device table and of the history
//! table, the lines about recently disconnected devices, the nicknames in
//! order, and the parts of a watch-mode line. Colours, table drawing and
//! printing are the caller's.

use vstd::prelude::*;
use vstd::string::*;

use crate::config::SessionDevice;
use crate::detection::{opt_view, spec_vid_pid, DeviceInfo};
use crate::export::{lookup_nickname, nickname_of, or_empty, session_map_wf};
use crate::history::{
    format_local, format_relative, format_uptime, offset_ok, wall_clock_text, spec_event_name, spec_relative,
    spec_uptime, HistoryEvent,
};
use crate::port_map::{PortMap, keys_unique, lemma_map_of_entry, map_of};
use crate::port_order::{
    lemma_text_before_total, lemma_text_before_transitive,
    text_before, text_before_exec,
};
use crate::text::push_str;
use crate::timestamp::{seconds_between, spec_seconds_between, Timestamp};
use crate::watch::WatchEventKind;

verus! {

/// The placeholder shown where a value is missing.
pub open spec fn dash() -> Seq<char> {
    "—"@
}

// ─── Device list ─────────────────────────────────────────────────────────────

/// One row of the device table.
#[derive(Clone, Debug)]
pub struct DeviceRow {
    pub port: String,
    pub board: String,
    pub nickname: String,
    pub vid_pid: String,
    pub manufacturer: String,
    pub connected_at: String,
    pub uptime: String,
}

/// The row of device `d` with its nickname (empty where none is saved) and,
/// where the session records it, the text of its connection instant and its
/// uptime; `—` in both columns otherwise.
pub open spec fn row_of(r: DeviceRow, d: DeviceInfo, nickname: Option<Seq<char>>, timing: Option<(Seq<char>, i64)>) -> bool {
    &&& r.port@ == d.port@
    &&& r.board@ == d.board_name@
    &&& r.nickname@ == or_empty(nickname)
    &&& r.vid_pid@ == spec_vid_pid(d.vid, d.pid)
    &&& r.manufacturer@ == d.manufacturer@
    &&& match timing {
        Some((at, secs)) => r.connected_at@ == at && r.uptime@ == spec_uptime(secs as int),
        None => r.connected_at@ == dash() && r.uptime@ == dash(),
    }
}

/// The row of a device, given its nickname and, where the session records
/// it, the text of its connection instant and its uptime in seconds.
pub fn device_row(d: &DeviceInfo, nickname: Option<String>, timing: Option<(String, i64)>) -> (r: DeviceRow)
    ensures
        row_of(r, *d, opt_view(nickname), match timing {
            Some((at, secs)) => Some((at@, secs)),
            None => None,
        }),
{
    let (connected_at, uptime) = match timing {
        Some((at, secs)) => (at, format_uptime(secs)),
        None => (String::from_str("—"), String::from_str("—")),
    };
    DeviceRow {
        port: d.port.clone(),
        board: d.board_name.clone(),
        nickname: match nickname {
            Some(n) => n,
            None => String::new(),
        },
        vid_pid: d.vid_pid_str(),
        manufacturer: d.manufacturer.clone(),
        connected_at,
        uptime,
    }
}

/// The row of device `d` in the device table: its saved nickname, and where
/// the session records the port, its uptime up to `now` and, with
/// `relative_time`, how long ago it connected (without it, the wall-clock
/// time at `utc_offset` at which it connected, see `wall_clock_text`).
pub open spec fn row_fits(
    r: DeviceRow,
    d: DeviceInfo,
    nicknames: Map<Seq<char>, String>,
    session: Map<Seq<char>, SessionDevice>,
    relative_time: bool,
    now: Timestamp,
    utc_offset: i32,
) -> bool {
    let nick = nickname_of(nicknames, d.port@);
    if session.dom().contains(d.port@) {
        let at = session[d.port@].connected_at;
        let secs = spec_seconds_between(now, at) as i64;
        if relative_time {
            row_of(r, d, nick, Some((spec_relative(spec_seconds_between(now, at)), secs)))
        } else {
            row_of(r, d, nick, Some((wall_clock_text(at.secs + utc_offset), secs)))
        }
    } else {
        row_of(r, d, nick, None)
    }
}

/// The rows of the device table, one per device in their order (see `row_fits`).
pub fn device_rows(
    devices: &Vec<DeviceInfo>,
    nicknames: &PortMap<String>,
    session: &PortMap<SessionDevice>,
    relative_time: bool,
    now: Timestamp,
    utc_offset: i32,
) -> (r: Vec<DeviceRow>)
    requires
        nicknames.wf(),
        session.wf(),
        session_map_wf(session@),
        now.wf(),
        offset_ok(utc_offset),
    ensures
        r@.len() == devices@.len(),
        forall|i: int| 0 <= i < devices@.len() ==>
            row_fits(#[trigger] r@[i], devices@[i], nicknames@, session@, relative_time, now, utc_offset),
{
    let mut out: Vec<DeviceRow> = Vec::new();
    let mut i: usize = 0;
    while i < devices.len()
        invariant
            nicknames.wf(),
            session.wf(),
            session_map_wf(session@),
            now.wf(),
            offset_ok(utc_offset),
            i <= devices@.len(),
            out@.len() == i,
            forall|k: int| 0 <= k < i ==>
                row_fits(#[trigger] out@[k], devices@[k], nicknames@, session@, relative_time, now, utc_offset),
        decreases devices.len() - i,
    {
        let d = &devices[i];
        let nickname = lookup_nickname(nicknames, d.port.as_str());
        let timing = match session.get(d.port.as_str()) {
            Some(sess) => {
                let secs = seconds_between(now, sess.connected_at);
                let text = if relative_time {
                    format_relative(sess.connected_at, now)
                } else {
                    format_local(sess.connected_at, utc_offset)
                };
                Some((text, secs))
            },
            None => None,
        };
        let row = device_row(d, nickname, timing);
        out.push(row);
        proof {
            assert(out@[i as int] == row);
            if session@.dom().contains(d.port@) {
                let at = timing.unwrap().0@;
                let secs = spec_seconds_between(now, session@[d.port@].connected_at) as i64;
                assert(timing.unwrap().1 == secs);
                assert(row_of(row, *d, nickname_of(nicknames@, d.port@), Some((at, secs))));
            }
            assert(row_fits(out@[i as int], devices@[i as int], nicknames@, session@, relative_time, now, utc_offset));
        }
        i = i + 1;
    }
    out
}

/// The number of devices of known microcontroller vendors.
pub open spec fn arduino_count(devices: Seq<DeviceInfo>) -> nat
    decreases devices.len(),
{
    if devices.len() == 0 {
        0
    } else {
        arduino_count(devices.drop_last()) + if devices.last().is_arduino { 1nat } else { 0nat }
    }
}

proof fn lemma_arduino_count_bound(devices: Seq<DeviceInfo>)
    ensures
        arduino_count(devices) <= devices.len(),
    decreases devices.len(),
{
    if devices.len() > 0 {
        lemma_arduino_count_bound(devices.drop_last());
    }
}

/// The summary counts split the devices by their microcontroller mark: the
/// second counts the devices marked as microcontrollers, the third those not
/// marked, so the two add up to all devices; where every device is marked the
/// second is all of them, and where none is it is zero.
pub proof fn lemma_device_counts_split(devices: Seq<DeviceInfo>)
    ensures
        arduino_count(devices) == devices.filter(|d: DeviceInfo| d.is_arduino).len(),
        devices.len() - arduino_count(devices) == devices.filter(|d: DeviceInfo| !d.is_arduino).len(),
        (forall|i: int| 0 <= i < devices.len() ==> (#[trigger] devices[i]).is_arduino) ==> arduino_count(devices) == devices.len(),
        (forall|i: int| 0 <= i < devices.len() ==> !(#[trigger] devices[i]).is_arduino) ==> arduino_count(devices) == 0,
    decreases devices.len(),
{
    reveal(Seq::filter);
    if devices.len() > 0 {
        let t = devices.drop_last();
        lemma_device_counts_split(t);
        lemma_arduino_count_bound(t);
        assert forall|i: int| 0 <= i < t.len() implies #[trigger] t[i] == devices[i] by {}
        if forall|i: int| 0 <= i < devices.len() ==> (#[trigger] devices[i]).is_arduino {
            assert(devices[devices.len() - 1].is_arduino);
            assert forall|i: int| 0 <= i < t.len() implies (#[trigger] t[i]).is_arduino by {
                assert(devices[i].is_arduino);
            }
        }
        if forall|i: int| 0 <= i < devices.len() ==> !(#[trigger] devices[i]).is_arduino {
            assert(!devices[devices.len() - 1].is_arduino);
            assert forall|i: int| 0 <= i < t.len() implies !(#[trigger] t[i]).is_arduino by {
                assert(!devices[i].is_arduino);
            }
        }
    }
}

/// The counts of the summary line: all devices, those marked as of known
/// microcontroller vendors, and the others.
pub fn device_counts(devices: &Vec<DeviceInfo>) -> (r: (usize, usize, usize))
    ensures
        r.0 == devices@.len(),
        r.1 == arduino_count(devices@),
        r.2 == devices@.len() - arduino_count(devices@),
        r.1 == devices@.filter(|d: DeviceInfo| d.is_arduino).len(),
        r.2 == devices@.filter(|d: DeviceInfo| !d.is_arduino).len(),
{
    proof {
        lemma_device_counts_split(devices@);
    }
    let mut n: usize = 0;
    let mut i: usize = 0;
    assert(devices@.take(0) =~= Seq::<DeviceInfo>::empty());
    while i < devices.len()
        invariant
            i <= devices@.len(),
            n == arduino_count(devices@.take(i as int)),
            n <= i,
        decreases devices.len() - i,
    {
        assert(devices@.take(i + 1).drop_last() =~= devices@.take(i as int));
        if devices[i].is_arduino {
            n = n + 1;
        }
        i = i + 1;
    }
    assert(devices@.take(i as int) =~= devices@);
    (devices.len(), n, devices.len() - n)
}

// ─── History ─────────────────────────────────────────────────────────────────

/// One row of the history table.
#[derive(Clone, Debug)]
pub struct HistoryRow {
    pub time: String,
    pub event: String,
    pub port: String,
    pub board: String,
    pub uptime: String,
}

/// The row of event `e` with the given text for its instant: the event's
/// name, port, board, and its uptime where it has one, `—` otherwise.
pub open spec fn history_row_of(r: HistoryRow, e: HistoryEvent, time: Seq<char>) -> bool {
    &&& r.time@ == time
    &&& r.event@ == spec_event_name(e.event_type)
    &&& r.port@ == e.port@
    &&& r.board@ == e.board_name@
    &&& r.uptime@ == match e.uptime_secs {
        Some(s) => spec_uptime(s as int),
        None => dash(),
    }
}

/// The row of event `e` in the history table: with `relative_time` its
/// instant reads how long before `now` it was, without it the wall-clock
/// time at `utc_offset` (see `wall_clock_text`).
pub open spec fn history_row_fits(r: HistoryRow, e: HistoryEvent, relative_time: bool, now: Timestamp, utc_offset: i32) -> bool {
    if relative_time {
        history_row_of(r, e, spec_relative(spec_seconds_between(now, e.timestamp)))
    } else {
        history_row_of(r, e, wall_clock_text(e.timestamp.secs + utc_offset))
    }
}

/// The row of an event, given the text for its instant.
pub fn history_row(e: &HistoryEvent, time: String) -> (r: HistoryRow)
    ensures
        history_row_of(r, *e, time@),
{
    HistoryRow {
        time,
        event: e.event_type.to_string(),
        port: e.port.clone(),
        board: e.board_name.clone(),
        uptime: match e.uptime_secs {
            Some(s) => format_uptime(s),
            None => String::from_str("—"),
        },
    }
}

/// The rows of the history table, one per event in their order (see
/// `history_row_fits`).
pub fn history_rows(events: &Vec<&HistoryEvent>, relative_time: bool, now: Timestamp, utc_offset: i32) -> (r: Vec<HistoryRow>)
    requires
        forall|i: int| 0 <= i < events@.len() ==> (#[trigger] events@[i]).timestamp.wf(),
        now.wf(),
        offset_ok(utc_offset),
    ensures
        r@.len() == events@.len(),
        forall|i: int| 0 <= i < events@.len() ==> history_row_fits(#[trigger] r@[i], *events@[i], relative_time, now, utc_offset),
{
    let mut out: Vec<HistoryRow> = Vec::new();
    let mut i: usize = 0;
    while i < events.len()
        invariant
            forall|k: int| 0 <= k < events@.len() ==> (#[trigger] events@[k]).timestamp.wf(),
            now.wf(),
            offset_ok(utc_offset),
            i <= events@.len(),
            out@.len() == i,
            forall|k: int| 0 <= k < i ==> history_row_fits(#[trigger] out@[k], *events@[k], relative_time, now, utc_offset),
        decreases events.len() - i,
    {
        let e = events[i];
        assert(events@[i as int].timestamp.wf());
        let time = if relative_time {
            format_relative(e.timestamp, now)
        } else {
            format_local(e.timestamp, utc_offset)
        };
        let ghost time_view = time@;
        let row = history_row(e, time);
        out.push(row);
        assert(out@[i as int] == row);
        assert(history_row_of(row, *events@[i as int], time_view));
        i = i + 1;
    }
    out
}

// ─── Verbose details ─────────────────────────────────────────────────────────

/// The verbose details of one device: its port, its board, its tag, and a
/// line for its serial number and one for its product where it has them.
#[derive(Clone, Debug)]
pub struct DeviceDetail {
    pub port: String,
    pub board: String,
    /// `[MCU]` for a known microcontroller vendor, `[serial]` otherwise.
    pub tag: String,
    pub serial_line: Option<String>,
    pub product_line: Option<String>,
}

/// The details of device `d`.
pub open spec fn detail_of(r: DeviceDetail, d: DeviceInfo) -> bool {
    &&& r.port@ == d.port@
    &&& r.board@ == d.board_name@
    &&& r.tag@ == if d.is_arduino { "[MCU]"@ } else { "[serial]"@ }
    &&& opt_view(r.serial_line) == match d.serial_number {
        Some(sn) => Some("      Serial #  : "@ + sn@),
        None => None,
    }
    &&& opt_view(r.product_line) == match d.product {
        Some(p) => Some("      Product   : "@ + p@),
        None => None,
    }
}

fn labelled(label: &str, value: &Option<String>) -> (r: Option<String>)
    ensures
        opt_view(r) == match *value {
            Some(v) => Some(label@ + v@),
            None => None,
        },
{
    match value {
        Some(v) => {
            let mut line = String::from_str(label);
            push_str(&mut line, v.as_str());
            Some(line)
        },
        None => None,
    }
}

/// The verbose details of the devices, one per device in their order.
pub fn device_details(devices: &Vec<DeviceInfo>) -> (r: Vec<DeviceDetail>)
    ensures
        r@.len() == devices@.len(),
        forall|i: int| 0 <= i < devices@.len() ==> detail_of(#[trigger] r@[i], devices@[i]),
{
    let mut out: Vec<DeviceDetail> = Vec::new();
    let mut i: usize = 0;
    while i < devices.len()
        invariant
            i <= devices@.len(),
            out@.len() == i,
            forall|k: int| 0 <= k < i ==> detail_of(#[trigger] out@[k], devices@[k]),
        decreases devices.len() - i,
    {
        let d = &devices[i];
        let tag = if d.is_arduino { String::from_str("[MCU]") } else { String::from_str("[serial]") };
        let detail = DeviceDetail {
            port: d.port.clone(),
            board: d.board_name.clone(),
            tag,
            serial_line: labelled("      Serial #  : ", &d.serial_number),
            product_line: labelled("      Product   : ", &d.product),
        };
        out.push(detail);
        assert(out@[i as int] == detail);
        i = i + 1;
    }
    out
}

// ─── Recently disconnected ───────────────────────────────────────────────────

/// One line about a recently disconnected device.
#[derive(Clone, Debug)]
pub struct RecentLine {
    pub port: String,
    pub board: String,
    /// How long before now the device went away.
    pub ago: String,
    /// `  (was connected for …)` where the uptime is known, else empty.
    pub uptime_note: String,
}

/// The line of disconnection `e` at `now`.
pub open spec fn recent_line_of(r: RecentLine, e: HistoryEvent, now: Timestamp) -> bool {
    &&& r.port@ == e.port@
    &&& r.board@ == e.board_name@
    &&& r.ago@ == spec_relative(spec_seconds_between(now, e.timestamp))
    &&& r.uptime_note@ == match e.uptime_secs {
        Some(s) => "  (was connected for "@ + spec_uptime(s as int) + ")"@,
        None => Seq::empty(),
    }
}

/// The lines about the disconnections, one per event in their order.
pub fn recent_lines(events: &Vec<&HistoryEvent>, now: Timestamp) -> (r: Vec<RecentLine>)
    requires
        forall|i: int| 0 <= i < events@.len() ==> (#[trigger] events@[i]).timestamp.wf(),
        now.wf(),
    ensures
        r@.len() == events@.len(),
        forall|i: int| 0 <= i < events@.len() ==> recent_line_of(#[trigger] r@[i], *events@[i], now),
{
    let mut out: Vec<RecentLine> = Vec::new();
    let mut i: usize = 0;
    while i < events.len()
        invariant
            forall|k: int| 0 <= k < events@.len() ==> (#[trigger] events@[k]).timestamp.wf(),
            now.wf(),
            i <= events@.len(),
            out@.len() == i,
            forall|k: int| 0 <= k < i ==> recent_line_of(#[trigger] out@[k], *events@[k], now),
        decreases events.len() - i,
    {
        let e = events[i];
        assert(events@[i as int].timestamp.wf());
        let note = match e.uptime_secs {
            Some(s) => {
                let mut t = String::from_str("  (was connected for ");
                let u = format_uptime(s);
                push_str(&mut t, u.as_str());
                push_str(&mut t, ")");
                t
            },
            None => String::new(),
        };
        let line = RecentLine {
            port: e.port.clone(),
            board: e.board_name.clone(),
            ago: format_relative(e.timestamp, now),
            uptime_note: note,
        };
        out.push(line);
        assert(out@[i as int] == line);
        i = i + 1;
    }
    out
}

// ─── Nicknames ───────────────────────────────────────────────────────────────

/// The ports strictly ascend in text order.
pub open spec fn ports_ascending(pairs: Seq<(String, String)>) -> bool {
    forall|i: int, j: int| 0 <= i < j < pairs.len() ==> text_before((#[trigger] pairs[i]).0@, (#[trigger] pairs[j]).0@)
}

/// Every pair is a saved nickname.
pub open spec fn pairs_saved(pairs: Seq<(String, String)>, nicknames: Map<Seq<char>, String>) -> bool {
    forall|i: int| 0 <= i < pairs.len() ==>
        nicknames.dom().contains((#[trigger] pairs[i]).0@) && nicknames[pairs[i].0@]@ == pairs[i].1@
}

proof fn lemma_insert_ascending(s: Seq<(String, String)>, x: (String, String), p: int)
    requires
        ports_ascending(s),
        0 <= p <= s.len(),
        forall|j: int| p <= j < s.len() ==> text_before(x.0@, (#[trigger] s[j]).0@),
        p == 0 || !text_before(x.0@, s[p - 1].0@),
        forall|j: int| 0 <= j < s.len() ==> (#[trigger] s[j]).0@ != x.0@,
    ensures
        ports_ascending(s.insert(p, x)),
{
    let t = s.insert(p, x);
    if p > 0 {
        lemma_text_before_total(x.0@, s[p - 1].0@);
    }
    assert forall|i: int, j: int| 0 <= i < j < t.len() implies text_before((#[trigger] t[i]).0@, (#[trigger] t[j]).0@) by {
        if j < p {
            assert(t[i] == s[i] && t[j] == s[j]);
        } else if j == p {
            assert(t[j] == x);
            assert(t[i] == s[i]);
            if i < p - 1 {
                lemma_text_before_transitive(s[i].0@, s[p - 1].0@, x.0@);
            }
        } else if i == p {
            assert(t[i] == x);
            assert(t[j] == s[j - 1]);
        } else if i < p {
            assert(t[i] == s[i]);
            assert(t[j] == s[j - 1]);
        } else {
            assert(t[i] == s[i - 1]);
            assert(t[j] == s[j - 1]);
        }
    }
}

/// The saved nicknames as (port, nickname) pairs, ascending by port: every
/// pair is a saved nickname, no port occurs twice (the order is strict), and
/// there is one pair per saved nickname.
pub fn sorted_nicknames(nicknames: &PortMap<String>) -> (r: Vec<(String, String)>)
    requires
        nicknames.wf(),
    ensures
        ports_ascending(r@),
        pairs_saved(r@, nicknames@),
        r@.len() == nicknames@.dom().len(),
{
    let entries = &nicknames.entries;
    let mut out: Vec<(String, String)> = Vec::new();
    let mut i: usize = 0;
    while i < entries.len()
        invariant
            keys_unique(entries@),
            map_of(entries@) == nicknames@,
            i <= entries@.len(),
            out@.len() == i,
            ports_ascending(out@),
            pairs_saved(out@, nicknames@),
            forall|k: int| 0 <= k < out@.len() ==>
                exists|j: int| 0 <= j < i && (#[trigger] out@[k]).0@ == (#[trigger] entries@[j]).0@,
        decreases entries.len() - i,
    {
        let key = entries[i].0.clone();
        let value = entries[i].1.clone();
        let x = (key, value);
        proof {
            lemma_map_of_entry(entries@, i as int);
        }
        let mut p = out.len();
        while p > 0 && text_before_exec(x.0.as_str(), out[p - 1].0.as_str())
            invariant
                p <= out@.len(),
                forall|j: int| p <= j < out@.len() ==> text_before(x.0@, (#[trigger] out@[j]).0@),
            decreases p,
        {
            p = p - 1;
        }
        proof {
            assert forall|j: int| 0 <= j < out@.len() implies (#[trigger] out@[j]).0@ != x.0@ by {
                let jj = choose|jj: int| 0 <= jj < i && out@[j].0@ == (#[trigger] entries@[jj]).0@;
                assert(entries@[jj].0@ != entries@[i as int].0@);
            }
            lemma_insert_ascending(out@, x, p as int);
        }
        let ghost before = out@;
        out.insert(p, x);
        proof {
            assert(out@ == before.insert(p as int, x));
            assert forall|k: int| 0 <= k < out@.len() implies
                exists|j: int| 0 <= j < i + 1 && (#[trigger] out@[k]).0@ == (#[trigger] entries@[j]).0@ by {
                if k < p {
                    assert(out@[k] == before[k]);
                } else if k == p {
                    assert(out@[k].0@ == entries@[i as int].0@);
                } else {
                    assert(out@[k] == before[k - 1]);
                }
            }
            assert(pairs_saved(out@, nicknames@)) by {
                assert forall|k: int| 0 <= k < out@.len() implies
                    nicknames@.dom().contains((#[trigger] out@[k]).0@) && nicknames@[out@[k].0@]@ == out@[k].1@ by {
                    if k < p {
                        assert(out@[k] == before[k]);
                    } else if k > p {
                        assert(out@[k] == before[k - 1]);
                    }
                }
            }
        }
        i = i + 1;
    }
    proof {
        nicknames.lemma_len_pub();
    }
    out
}

// ─── Watch mode lines ────────────────────────────────────────────────────────

/// The parts of one watch-mode line besides its time of day.
#[derive(Clone, Debug)]
pub struct WatchLine {
    /// `✔  Connected   `, `✘  Disconnected` or `↺  Reconnected `.
    pub label: String,
    /// ` [nickname]` where one is saved, else empty.
    pub nick: String,
    /// `  (uptime …)` for a disconnection with a known uptime, else empty.
    pub uptime: String,
}

/// The label of a kind of change.
pub open spec fn spec_watch_label(kind: WatchEventKind) -> Seq<char> {
    match kind {
        WatchEventKind::Connected => "✔  Connected   "@,
        WatchEventKind::Disconnected => "✘  Disconnected"@,
        WatchEventKind::Reconnected => "↺  Reconnected "@,
    }
}

/// The parts of the watch-mode line of a change with the given nickname
/// and uptime.
pub fn watch_line(kind: WatchEventKind, nickname: Option<String>, uptime_secs: Option<i64>) -> (r: WatchLine)
    ensures
        r.label@ == spec_watch_label(kind),
        r.nick@ == match opt_view(nickname) {
            Some(n) => " ["@ + n + "]"@,
            None => Seq::empty(),
        },
        r.uptime@ == match (kind, uptime_secs) {
            (WatchEventKind::Disconnected, Some(s)) => "  (uptime "@ + spec_uptime(s as int) + ")"@,
            _ => Seq::<char>::empty(),
        },
{
    let label = match kind {
        WatchEventKind::Connected => String::from_str("✔  Connected   "),
        WatchEventKind::Disconnected => String::from_str("✘  Disconnected"),
        WatchEventKind::Reconnected => String::from_str("↺  Reconnected "),
    };
    let nick = match nickname {
        Some(n) => {
            let mut t = String::from_str(" [");
            push_str(&mut t, n.as_str());
            push_str(&mut t, "]");
            t
        },
        None => String::new(),
    };
    let uptime = match (kind, uptime_secs) {
        (WatchEventKind::Disconnected, Some(s)) => {
            let mut t = String::from_str("  (uptime ");
            let u = format_uptime(s);
            push_str(&mut t, u.as_str());
            push_str(&mut t, ")");
            t
        },
        _ => String::new(),
    };
    WatchLine { label, nick, uptime }
}

} // verus!
