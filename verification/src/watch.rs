//! The decisions of watch mode: which ports appeared, reappeared or went away
//! since the last look, what each change records in the history, and what it
//! announces. The polling itself (sleeping, reading the ports, printing,
//! saving) is the caller's.

use vstd::prelude::*;

use crate::config::{has_port, is_v4_uuid_text, kept_entries, lemma_kept_listed, lemma_kept_unique, port_is_listed, port_listed, uptime_only_on_disconnect};
use crate::detection::DeviceInfo;
use crate::history::{lemma_events_push_wf, retained, EventType, History, HistoryEvent};
use crate::port_map::{PortMap, keys_unique, lemma_map_of_dom, map_of};
use crate::text::same_text;
use crate::timestamp::{seconds_between, spec_seconds_between, Timestamp};

verus! {

/// A port that is connected, as watch mode tracks it.
#[derive(Clone, Debug)]
pub struct WatchEntry {
    pub board_name: String,
    pub connected_at: Timestamp,
    pub session_id: String,
}

/// What watch mode remembers between two looks at the ports.
#[derive(Clone, Debug)]
pub struct WatchState {
    /// Port → tracking entry for every currently connected device.
    pub connected: PortMap<WatchEntry>,
    /// Every port seen at any point while watching.
    pub ever_seen: Vec<String>,
}

/// The kind of change that watch mode announces.
#[derive(Clone, Copy, Debug, PartialEq, Eq, Structural)]
pub enum WatchEventKind {
    Connected,
    Disconnected,
    Reconnected,
}

/// One announced change.
#[derive(Clone, Debug)]
pub struct WatchNotice {
    pub kind: WatchEventKind,
    pub port: String,
    pub board: String,
    pub uptime_secs: Option<i64>,
}

/// Every entry's instant is representable.
pub open spec fn watch_entries_wf(entries: Seq<(String, WatchEntry)>) -> bool {
    forall|i: int| 0 <= i < entries.len() ==> (#[trigger] entries[i]).1.connected_at.wf()
}

impl WatchState {
    /// No port occurs twice among the connected and every instant is representable.
    pub open spec fn wf(&self) -> bool {
        &&& self.connected.wf()
        &&& watch_entries_wf(self.connected.entries@)
    }

    /// Nothing connected and nothing seen.
    pub fn new() -> (r: WatchState)
        ensures
            r.wf(),
            r.connected@ == Map::<Seq<char>, WatchEntry>::empty(),
            r.ever_seen@.len() == 0,
    {
        WatchState { connected: PortMap::new(), ever_seen: Vec::new() }
    }
}

/// Some event of the history concerns the port.
pub open spec fn seen_in_history(events: Seq<HistoryEvent>, port: Seq<char>) -> bool {
    exists|i: int| 0 <= i < events.len() && (#[trigger] events[i]).port@ == port
}

/// The port is among the ports seen.
pub open spec fn seen_in(seen: Seq<String>, port: Seq<char>) -> bool {
    exists|i: int| 0 <= i < seen.len() && (#[trigger] seen[i])@ == port
}

/// The connection event recorded when a device appears.
pub open spec fn connection_event(d: DeviceInfo, id: String, now: Timestamp) -> HistoryEvent {
    HistoryEvent {
        port: d.port,
        board_name: d.board_name,
        vid: d.vid,
        pid: d.pid,
        event_type: EventType::Connected,
        timestamp: now,
        session_id: id,
        uptime_secs: None,
    }
}

/// The tracking entry of a device that appears.
pub open spec fn arrival_entry(d: DeviceInfo, id: String, now: Timestamp) -> WatchEntry {
    WatchEntry { board_name: d.board_name, connected_at: now, session_id: id }
}

/// The announcement of a device that appears.
pub open spec fn arrival_notice(d: DeviceInfo, kind: WatchEventKind) -> WatchNotice {
    WatchNotice { kind, port: d.port, board: d.board_name, uptime_secs: None }
}

/// The state, history and announcements after the ports present when
/// watching starts are taken in turn: each is announced as reconnected where
/// the history already holds an event for its port, else as connected, and
/// gains a connection event, a tracking entry with the session ID of the same
/// index, and a place among the ports seen.
pub open spec fn start_steps(
    m: Map<Seq<char>, WatchEntry>,
    seen: Seq<String>,
    events: Seq<HistoryEvent>,
    devices: Seq<DeviceInfo>,
    ids: Seq<String>,
    now: Timestamp,
) -> (Map<Seq<char>, WatchEntry>, Seq<String>, Seq<HistoryEvent>, Seq<WatchNotice>)
    decreases devices.len(),
{
    if devices.len() == 0 {
        (m, seen, events, Seq::empty())
    } else {
        let (m1, s1, ev1, ns1) = start_steps(m, seen, events, devices.drop_last(), ids, now);
        let d = devices.last();
        let id = ids[devices.len() - 1];
        let kind = if seen_in_history(ev1, d.port@) {
            WatchEventKind::Reconnected
        } else {
            WatchEventKind::Connected
        };
        (
            m1.insert(d.port@, arrival_entry(d, id, now)),
            s1.push(d.port),
            ev1.push(connection_event(d, id, now)),
            ns1.push(arrival_notice(d, kind)),
        )
    }
}

/// No later device is on the same port (where several are, the last counts).
pub open spec fn last_on_port(devices: Seq<DeviceInfo>, i: int) -> bool {
    forall|j: int| i < j < devices.len() ==> (#[trigger] devices[j]).port@ != devices[i].port@
}

/// The state, new events and announcements after the first `n` devices of a
/// look are taken in turn: each that is the last on its port and whose port is
/// not tracked is announced as reconnected where the port was seen before,
/// else as connected, and gains a connection event, a tracking entry with the
/// session ID of the same index, and a place among the ports seen.
pub open spec fn poll_arrivals(
    m: Map<Seq<char>, WatchEntry>,
    seen: Seq<String>,
    devices: Seq<DeviceInfo>,
    n: int,
    ids: Seq<String>,
    now: Timestamp,
) -> (Map<Seq<char>, WatchEntry>, Seq<String>, Seq<HistoryEvent>, Seq<WatchNotice>)
    decreases n,
{
    if n <= 0 {
        (m, seen, Seq::empty(), Seq::empty())
    } else {
        let (m1, s1, ev1, ns1) = poll_arrivals(m, seen, devices, n - 1, ids, now);
        let d = devices[n - 1];
        let id = ids[n - 1];
        if last_on_port(devices, n - 1) && !m1.dom().contains(d.port@) {
            let kind = if seen_in(s1, d.port@) {
                WatchEventKind::Reconnected
            } else {
                WatchEventKind::Connected
            };
            (
                m1.insert(d.port@, arrival_entry(d, id, now)),
                s1.push(d.port),
                ev1.push(connection_event(d, id, now)),
                ns1.push(arrival_notice(d, kind)),
            )
        } else {
            (m1, s1, ev1, ns1)
        }
    }
}

/// The tracked entries whose ports are no longer listed, in their order.
pub open spec fn gone_entries<V>(entries: Seq<(String, V)>, devices: Seq<DeviceInfo>) -> Seq<(String, V)>
    decreases entries.len(),
{
    if entries.len() == 0 {
        Seq::empty()
    } else {
        let rest = gone_entries(entries.drop_last(), devices);
        if port_listed(devices, entries.last().0@) {
            rest
        } else {
            rest.push(entries.last())
        }
    }
}

/// The disconnection recorded when a tracked port goes away.
pub open spec fn departure_event(e: (String, WatchEntry), now: Timestamp) -> HistoryEvent {
    HistoryEvent {
        port: e.0,
        board_name: e.1.board_name,
        vid: None,
        pid: None,
        event_type: EventType::Disconnected,
        timestamp: now,
        session_id: e.1.session_id,
        uptime_secs: Some(spec_seconds_between(now, e.1.connected_at) as i64),
    }
}

/// The announcement of a tracked port that goes away, with its uptime.
pub open spec fn departure_notice(e: (String, WatchEntry), now: Timestamp) -> WatchNotice {
    WatchNotice {
        kind: WatchEventKind::Disconnected,
        port: e.0,
        board: e.1.board_name,
        uptime_secs: Some(spec_seconds_between(now, e.1.connected_at) as i64),
    }
}

/// The events of the entries that went away, in their order.
pub open spec fn departure_events(gone: Seq<(String, WatchEntry)>, now: Timestamp) -> Seq<HistoryEvent> {
    gone.map_values(|e: (String, WatchEntry)| departure_event(e, now))
}

/// The announcements of the entries that went away, in their order.
pub open spec fn departure_notices(gone: Seq<(String, WatchEntry)>, now: Timestamp) -> Seq<WatchNotice> {
    gone.map_values(|e: (String, WatchEntry)| departure_notice(e, now))
}

fn seen_contains(seen: &Vec<String>, port: &str) -> (r: bool)
    ensures
        r == seen_in(seen@, port@),
{
    let mut i: usize = 0;
    while i < seen.len()
        invariant
            i <= seen@.len(),
            forall|k: int| 0 <= k < i ==> (#[trigger] seen@[k])@ != port@,
        decreases seen.len() - i,
    {
        if same_text(seen[i].as_str(), port) {
            assert(seen@[i as int]@ == port@);
            return true;
        }
        i = i + 1;
    }
    false
}

fn is_last_on_port(devices: &Vec<DeviceInfo>, i: usize) -> (r: bool)
    requires
        i < devices@.len(),
    ensures
        r == last_on_port(devices@, i as int),
{
    let n = devices.len();
    let mut j: usize = i + 1;
    while j < n
        invariant
            i < devices@.len(),
            n == devices@.len(),
            i < j <= devices@.len(),
            forall|k: int| i < k < j ==> (#[trigger] devices@[k]).port@ != devices@[i as int].port@,
        decreases n - j,
    {
        if same_text(devices[j].port.as_str(), devices[i].port.as_str()) {
            return false;
        }
        j = j + 1;
    }
    true
}

/// Takes in the ports present when watching starts (see `start_steps`), and
/// gives the announcements in the order of the devices; the history is then
/// kept within its limits (see `retained`).
pub fn watch_start(
    state: &mut WatchState,
    history: &mut History,
    devices: &Vec<DeviceInfo>,
    now: Timestamp,
    ids: &Vec<String>,
    max_days: Option<u32>,
    max_entries: Option<usize>,
) -> (r: Vec<WatchNotice>)
    requires
        old(state).wf(),
        old(history).wf(),
        now.wf(),
        ids@.len() >= devices@.len(),
    ensures
        final(state).wf(),
        final(history).wf(),
        ({
            let (m, s, ev, ns) = start_steps(old(state).connected@, old(state).ever_seen@, old(history).events@, devices@, ids@, now);
            &&& final(state).connected@ == m
            &&& final(state).ever_seen@ == s
            &&& final(history).events@ == retained(ev, max_days, max_entries, now)
            &&& r@ == ns
        }),
{
    let ghost m0 = state.connected@;
    let ghost s0 = state.ever_seen@;
    let ghost e0 = history.events@;
    let mut notices: Vec<WatchNotice> = Vec::new();
    let mut i: usize = 0;
    assert(devices@.take(0) =~= Seq::<DeviceInfo>::empty());
    while i < devices.len()
        invariant
            state.wf(),
            history.wf(),
            now.wf(),
            ids@.len() >= devices@.len(),
            i <= devices@.len(),
            ({
                let (m, s, ev, ns) = start_steps(m0, s0, e0, devices@.take(i as int), ids@, now);
                &&& state.connected@ == m
                &&& state.ever_seen@ == s
                &&& history.events@ == ev
                &&& notices@ == ns
            }),
        decreases devices.len() - i,
    {
        let d = &devices[i];
        assert(devices@.take(i + 1).drop_last() =~= devices@.take(i as int));
        assert(devices@.take(i + 1).last() == *d);
        let seen_before = history.was_previously_seen(d.port.as_str());
        let kind = if seen_before { WatchEventKind::Reconnected } else { WatchEventKind::Connected };
        notices.push(WatchNotice { kind, port: d.port.clone(), board: d.board_name.clone(), uptime_secs: None });
        let id = ids[i].clone();
        let ev = HistoryEvent {
            port: d.port.clone(),
            board_name: d.board_name.clone(),
            vid: d.vid,
            pid: d.pid,
            event_type: EventType::Connected,
            timestamp: now,
            session_id: id.clone(),
            uptime_secs: None,
        };
        proof {
            lemma_events_push_wf(history.events@, ev);
        }
        history.add_event(ev);
        state.ever_seen.push(d.port.clone());
        let ghost entries_before = state.connected.entries@;
        let ghost before = state.connected@;
        state.connected.insert(d.port.clone(), WatchEntry { board_name: d.board_name.clone(), connected_at: now, session_id: id });
        proof {
            lemma_insert_keeps_wf(entries_before, state.connected.entries@, before, d.port@, now);
        }
        i = i + 1;
    }
    assert(devices@.take(devices@.len() as int) =~= devices@);
    history.enforce_limits(max_days, max_entries, now);
    notices
}

proof fn lemma_insert_keeps_wf(
    before: Seq<(String, WatchEntry)>,
    after: Seq<(String, WatchEntry)>,
    m: Map<Seq<char>, WatchEntry>,
    key: Seq<char>,
    now: Timestamp,
)
    requires
        watch_entries_wf(before),
        keys_unique(before),
        keys_unique(after),
        map_of(before) == m,
        now.wf(),
        exists|e: WatchEntry| e.connected_at == now && map_of(after) == #[trigger] m.insert(key, e),
    ensures
        watch_entries_wf(after),
{
    let e = choose|e: WatchEntry| e.connected_at == now && map_of(after) == #[trigger] m.insert(key, e);
    assert forall|i: int| 0 <= i < after.len() implies (#[trigger] after[i]).1.connected_at.wf() by {
        crate::port_map::lemma_map_of_entry(after, i);
        let k = after[i].0@;
        if k == key {
        } else {
            assert(m.dom().contains(k));
            crate::port_map::lemma_map_of_dom(before, k);
            let j = choose|j: int| 0 <= j < before.len() && (#[trigger] before[j]).0@ == k;
            crate::port_map::lemma_map_of_entry(before, j);
        }
    }
}


proof fn lemma_split_subset<V>(entries: Seq<(String, V)>, devices: Seq<DeviceInfo>)
    ensures
        forall|i: int| 0 <= i < kept_entries(entries, devices).len() ==>
            exists|j: int| 0 <= j < entries.len() && entries[j] == #[trigger] kept_entries(entries, devices)[i],
        forall|i: int| 0 <= i < gone_entries(entries, devices).len() ==>
            exists|j: int| 0 <= j < entries.len() && entries[j] == #[trigger] gone_entries(entries, devices)[i],
    decreases entries.len(),
{
    if entries.len() > 0 {
        let t = entries.drop_last();
        lemma_split_subset(t, devices);
        let k = kept_entries(entries, devices);
        let kt = kept_entries(t, devices);
        let g = gone_entries(entries, devices);
        let gt = gone_entries(t, devices);
        assert forall|i: int| 0 <= i < k.len() implies exists|j: int| 0 <= j < entries.len() && entries[j] == #[trigger] k[i] by {
            if i < kt.len() {
                assert(k[i] == kt[i]);
                let j = choose|j: int| 0 <= j < t.len() && t[j] == #[trigger] kt[i];
                assert(entries[j] == t[j]);
            } else {
                assert(entries[entries.len() - 1] == k[i]);
            }
        }
        assert forall|i: int| 0 <= i < g.len() implies exists|j: int| 0 <= j < entries.len() && entries[j] == #[trigger] g[i] by {
            if i < gt.len() {
                assert(g[i] == gt[i]);
                let j = choose|j: int| 0 <= j < t.len() && t[j] == #[trigger] gt[i];
                assert(entries[j] == t[j]);
            } else {
                assert(entries[entries.len() - 1] == g[i]);
            }
        }
    }
}

/// Splits tracked entries into those whose ports are still listed and those
/// whose ports went away, each in their order.
fn split_listed(entries: Vec<(String, WatchEntry)>, devices: &Vec<DeviceInfo>) -> (r: (Vec<(String, WatchEntry)>, Vec<(String, WatchEntry)>))
    ensures
        r.0@ == kept_entries(entries@, devices@),
        r.1@ == gone_entries(entries@, devices@),
{
    let ghost all = entries@;
    let mut rest = entries;
    let mut kept: Vec<(String, WatchEntry)> = Vec::new();
    let mut gone: Vec<(String, WatchEntry)> = Vec::new();
    let n = rest.len();
    let mut i: usize = 0;
    assert(all.take(0) =~= Seq::<(String, WatchEntry)>::empty());
    while i < n
        invariant
            n == all.len(),
            i <= n,
            rest@ == all.skip(i as int),
            kept@ == kept_entries(all.take(i as int), devices@),
            gone@ == gone_entries(all.take(i as int), devices@),
        decreases n - i,
    {
        let e = rest.remove(0);
        assert(e == all[i as int]);
        assert(all.take(i + 1).drop_last() =~= all.take(i as int));
        assert(all.take(i + 1).last() == e);
        assert(rest@ =~= all.skip(i + 1));
        if port_is_listed(devices, e.0.as_str()) {
            kept.push(e);
        } else {
            gone.push(e);
        }
        i = i + 1;
    }
    assert(all.take(n as int) =~= all);
    (kept, gone)
}

/// Takes in one look at the ports: first every device that is the last on its
/// port and whose port is not tracked arrives (see `poll_arrivals`), in the
/// order of the devices; then every tracked port that is no longer listed goes
/// away with its uptime up to `now`, in the order in which the ports were
/// tracked. The announcements and the history events come in that order; the
/// history is then kept within its limits (see `retained`).
pub fn watch_poll(
    state: &mut WatchState,
    history: &mut History,
    devices: &Vec<DeviceInfo>,
    now: Timestamp,
    ids: &Vec<String>,
    max_days: Option<u32>,
    max_entries: Option<usize>,
) -> (r: Vec<WatchNotice>)
    requires
        old(state).wf(),
        old(history).wf(),
        now.wf(),
        ids@.len() >= devices@.len(),
    ensures
        final(state).wf(),
        final(history).wf(),
        ({
            let kept = kept_entries(old(state).connected.entries@, devices@);
            let gone = gone_entries(old(state).connected.entries@, devices@);
            let (m, s, ev, ns) = poll_arrivals(map_of(kept), old(state).ever_seen@, devices@, devices@.len() as int, ids@, now);
            &&& final(state).connected@ == m
            &&& final(state).ever_seen@ == s
            &&& final(history).events@ == retained(old(history).events@ + ev + departure_events(gone, now), max_days, max_entries, now)
            &&& r@ == ns + departure_notices(gone, now)
        }),
{
    let ghost entries0 = state.connected.entries@;
    let ghost s0 = state.ever_seen@;
    let ghost e0 = history.events@;
    let mut taken: Vec<(String, WatchEntry)> = Vec::new();
    std::mem::swap(&mut taken, &mut state.connected.entries);
    let (kept, gone) = split_listed(taken, devices);
    proof {
        lemma_kept_unique(entries0, devices@);
        lemma_split_subset(entries0, devices@);
        assert forall|i: int| 0 <= i < kept@.len() implies (#[trigger] kept@[i]).1.connected_at.wf() by {
            let j = choose|j: int| 0 <= j < entries0.len() && entries0[j] == #[trigger] kept_entries(entries0, devices@)[i];
        }
        assert forall|i: int| 0 <= i < gone@.len() implies (#[trigger] gone@[i]).1.connected_at.wf() by {
            let j = choose|j: int| 0 <= j < entries0.len() && entries0[j] == #[trigger] gone_entries(entries0, devices@)[i];
        }
    }
    state.connected.entries = kept;
    let ghost m0 = state.connected@;
    let mut notices: Vec<WatchNotice> = Vec::new();
    let n = devices.len();
    let mut i: usize = 0;
    assert(e0 + Seq::<HistoryEvent>::empty() =~= e0);
    while i < n
        invariant
            n == devices@.len(),
            state.wf(),
            history.wf(),
            now.wf(),
            ids@.len() >= devices@.len(),
            i <= n,
            ({
                let (m, s, ev, ns) = poll_arrivals(m0, s0, devices@, i as int, ids@, now);
                &&& state.connected@ == m
                &&& state.ever_seen@ == s
                &&& history.events@ == e0 + ev
                &&& notices@ == ns
            }),
        decreases n - i,
    {
        let d = &devices[i];
        let ghost prev = poll_arrivals(m0, s0, devices@, i as int, ids@, now);
        if is_last_on_port(devices, i) && !state.connected.contains_key(d.port.as_str()) {
            let kind = if seen_contains(&state.ever_seen, d.port.as_str()) {
                WatchEventKind::Reconnected
            } else {
                WatchEventKind::Connected
            };
            notices.push(WatchNotice { kind, port: d.port.clone(), board: d.board_name.clone(), uptime_secs: None });
            let id = ids[i].clone();
            let ev = HistoryEvent {
                port: d.port.clone(),
                board_name: d.board_name.clone(),
                vid: d.vid,
                pid: d.pid,
                event_type: EventType::Connected,
                timestamp: now,
                session_id: id.clone(),
                uptime_secs: None,
            };
            proof {
                lemma_events_push_wf(history.events@, ev);
            }
            history.add_event(ev);
            assert(e0 + prev.2.push(ev) =~= (e0 + prev.2).push(ev));
            state.ever_seen.push(d.port.clone());
            let ghost entries_before = state.connected.entries@;
            let ghost before = state.connected@;
            state.connected.insert(d.port.clone(), WatchEntry { board_name: d.board_name.clone(), connected_at: now, session_id: id });
            proof {
                lemma_insert_keeps_wf(entries_before, state.connected.entries@, before, d.port@, now);
            }
        }
        i = i + 1;
    }
    let ghost after_arrivals = history.events@;
    let ghost notices_arrivals = notices@;
    let ghost g = gone@;
    let mut rest = gone;
    let gn = rest.len();
    let mut k: usize = 0;
    assert(g.take(0) =~= Seq::<(String, WatchEntry)>::empty());
    assert(departure_events(g.take(0), now) =~= Seq::<HistoryEvent>::empty());
    assert(departure_notices(g.take(0), now) =~= Seq::<WatchNotice>::empty());
    assert(after_arrivals + Seq::<HistoryEvent>::empty() =~= after_arrivals);
    assert(notices_arrivals + Seq::<WatchNotice>::empty() =~= notices_arrivals);
    while k < gn
        invariant
            gn == g.len(),
            now.wf(),
            watch_entries_wf(g),
            history.wf(),
            k <= gn,
            rest@ == g.skip(k as int),
            history.events@ == after_arrivals + departure_events(g.take(k as int), now),
            notices@ == notices_arrivals + departure_notices(g.take(k as int), now),
        decreases gn - k,
    {
        let e = rest.remove(0);
        assert(e == g[k as int]);
        assert(rest@ =~= g.skip(k + 1));
        assert(g[k as int].1.connected_at.wf());
        let uptime = seconds_between(now, e.1.connected_at);
        let port2 = e.0.clone();
        let board2 = e.1.board_name.clone();
        let n_ev = HistoryEvent {
            port: e.0,
            board_name: e.1.board_name,
            vid: None,
            pid: None,
            event_type: EventType::Disconnected,
            timestamp: now,
            session_id: e.1.session_id,
            uptime_secs: Some(uptime),
        };
        let n_no = WatchNotice { kind: WatchEventKind::Disconnected, port: port2, board: board2, uptime_secs: Some(uptime) };
        assert(n_ev == departure_event(g[k as int], now));
        assert(n_no == departure_notice(g[k as int], now));
        proof {
            lemma_events_push_wf(history.events@, n_ev);
        }
        history.add_event(n_ev);
        notices.push(n_no);
        assert(departure_events(g.take(k + 1), now) =~= departure_events(g.take(k as int), now).push(n_ev));
        assert(departure_notices(g.take(k + 1), now) =~= departure_notices(g.take(k as int), now).push(n_no));
        assert(after_arrivals + departure_events(g.take(k as int), now).push(n_ev)
            =~= (after_arrivals + departure_events(g.take(k as int), now)).push(n_ev));
        assert(notices_arrivals + departure_notices(g.take(k as int), now).push(n_no)
            =~= (notices_arrivals + departure_notices(g.take(k as int), now)).push(n_no));
        k = k + 1;
    }
    assert(g.take(gn as int) =~= g);
    assert(e0 + poll_arrivals(m0, s0, devices@, n as int, ids@, now).2 + departure_events(g, now)
        =~= after_arrivals + departure_events(g, now));
    history.enforce_limits(max_days, max_entries, now);
    notices
}


proof fn lemma_poll_dom(
    m: Map<Seq<char>, WatchEntry>,
    seen: Seq<String>,
    devices: Seq<DeviceInfo>,
    n: int,
    ids: Seq<String>,
    now: Timestamp,
    p: Seq<char>,
)
    requires
        0 <= n <= devices.len(),
    ensures
        poll_arrivals(m, seen, devices, n, ids, now).0.dom().contains(p) <==> (m.dom().contains(p)
            || exists|i: int| 0 <= i < n && last_on_port(devices, i) && (#[trigger] devices[i]).port@ == p),
        forall|k: int| 0 <= k < poll_arrivals(m, seen, devices, n, ids, now).2.len() ==>
            uptime_only_on_disconnect(#[trigger] poll_arrivals(m, seen, devices, n, ids, now).2[k]),
    decreases n,
{
    if n > 0 {
        lemma_poll_dom(m, seen, devices, n - 1, ids, now, p);
        let (m1, s1, ev1, ns1) = poll_arrivals(m, seen, devices, n - 1, ids, now);
        let (m2, s2, ev2, ns2) = poll_arrivals(m, seen, devices, n, ids, now);
        let d = devices[n - 1];
        if exists|i: int| 0 <= i < n && last_on_port(devices, i) && (#[trigger] devices[i]).port@ == p {
            let i = choose|i: int| 0 <= i < n && last_on_port(devices, i) && (#[trigger] devices[i]).port@ == p;
            if i == n - 1 {
                assert(m2.dom().contains(p));
            }
        }
        if m2.dom().contains(p) && !m1.dom().contains(p) {
            assert(last_on_port(devices, n - 1) && devices[n - 1].port@ == p);
        }
        assert forall|k: int| 0 <= k < ev2.len() implies uptime_only_on_disconnect(#[trigger] ev2[k]) by {
            if k < ev1.len() && last_on_port(devices, n - 1) && !m1.dom().contains(d.port@) {
                assert(ev2[k] == ev1[k]);
            }
        }
    }
}

proof fn lemma_last_occurrence(devices: Seq<DeviceInfo>, i: int)
    requires
        0 <= i < devices.len(),
    ensures
        exists|j: int| i <= j < devices.len() && last_on_port(devices, j) && (#[trigger] devices[j]).port@ == devices[i].port@,
    decreases devices.len() - i,
{
    if !last_on_port(devices, i) {
        let j = choose|j: int| i < j < devices.len() && (#[trigger] devices[j]).port@ == devices[i].port@;
        lemma_last_occurrence(devices, j);
        let k = choose|k: int| j <= k < devices.len() && last_on_port(devices, k) && (#[trigger] devices[k]).port@ == devices[j].port@;
        assert(i <= k);
    } else {
        assert(last_on_port(devices, i) && devices[i].port@ == devices[i].port@);
    }
}

/// After a look at the ports, watch mode tracks exactly the ports of the
/// devices found in it.
pub proof fn lemma_watch_tracks_devices(
    entries: Seq<(String, WatchEntry)>,
    seen: Seq<String>,
    devices: Seq<DeviceInfo>,
    ids: Seq<String>,
    now: Timestamp,
    p: Seq<char>,
)
    ensures
        poll_arrivals(map_of(kept_entries(entries, devices)), seen, devices, devices.len() as int, ids, now).0.dom().contains(p)
            <==> port_listed(devices, p),
{
    let k = kept_entries(entries, devices);
    lemma_poll_dom(map_of(k), seen, devices, devices.len() as int, ids, now, p);
    lemma_map_of_dom(k, p);
    lemma_kept_listed(entries, devices);
    if has_port(k, p) {
        let i = choose|i: int| 0 <= i < k.len() && (#[trigger] k[i]).0@ == p;
    }
    if port_listed(devices, p) {
        let i = choose|i: int| 0 <= i < devices.len() && (#[trigger] devices[i]).port@ == p;
        lemma_last_occurrence(devices, i);
    }
    if exists|i: int| 0 <= i < devices.len() && last_on_port(devices, i) && (#[trigger] devices[i]).port@ == p {
        let i = choose|i: int| 0 <= i < devices.len() && last_on_port(devices, i) && (#[trigger] devices[i]).port@ == p;
        assert(port_listed(devices, p));
    }
}

/// Every event that a look at the ports records carries an uptime exactly
/// when it is a disconnection.
pub proof fn lemma_watch_events_uptime(
    entries: Seq<(String, WatchEntry)>,
    seen: Seq<String>,
    devices: Seq<DeviceInfo>,
    ids: Seq<String>,
    now: Timestamp,
)
    ensures
        ({
            let arrived = poll_arrivals(map_of(kept_entries(entries, devices)), seen, devices, devices.len() as int, ids, now).2;
            let recorded = arrived + departure_events(gone_entries(entries, devices), now);
            forall|i: int| 0 <= i < recorded.len() ==> uptime_only_on_disconnect(#[trigger] recorded[i])
        }),
{
    let arrived = poll_arrivals(map_of(kept_entries(entries, devices)), seen, devices, devices.len() as int, ids, now).2;
    let departed = departure_events(gone_entries(entries, devices), now);
    lemma_poll_dom(map_of(kept_entries(entries, devices)), seen, devices, devices.len() as int, ids, now, Seq::empty());
    assert forall|i: int| 0 <= i < (arrived + departed).len() implies uptime_only_on_disconnect(#[trigger] (arrived + departed)[i]) by {
        if i < arrived.len() {
            assert((arrived + departed)[i] == arrived[i]);
        } else {
            assert((arrived + departed)[i] == departed[i - arrived.len()]);
        }
    }
}


proof fn lemma_poll_seen(
    m: Map<Seq<char>, WatchEntry>,
    seen: Seq<String>,
    devices: Seq<DeviceInfo>,
    n: int,
    ids: Seq<String>,
    now: Timestamp,
    p: Seq<char>,
)
    requires
        0 <= n <= devices.len(),
    ensures
        ({
            let (m2, s2, ev2, ns2) = poll_arrivals(m, seen, devices, n, ids, now);
            &&& seen_in(s2, p) ==> seen_in(seen, p) || exists|i: int| 0 <= i < n && (#[trigger] devices[i]).port@ == p
            &&& seen_in(seen, p) ==> seen_in(s2, p)
            &&& m2.dom().contains(p) ==> m.dom().contains(p) || seen_in(s2, p)
            &&& (exists|i: int| 0 <= i < n && last_on_port(devices, i) && (#[trigger] devices[i]).port@ == p)
                ==> seen_in(s2, p) || m.dom().contains(p)
        }),
    decreases n,
{
    if n > 0 {
        lemma_poll_seen(m, seen, devices, n - 1, ids, now, p);
        let (m1, s1, ev1, ns1) = poll_arrivals(m, seen, devices, n - 1, ids, now);
        let (m2, s2, ev2, ns2) = poll_arrivals(m, seen, devices, n, ids, now);
        let d = devices[n - 1];
        if last_on_port(devices, n - 1) && !m1.dom().contains(d.port@) {
            assert(s2 == s1.push(d.port));
            assert(s2[s1.len() as int]@ == d.port@);
            if seen_in(s1, p) {
                let k = choose|k: int| 0 <= k < s1.len() && (#[trigger] s1[k])@ == p;
                assert(s2[k] == s1[k]);
            }
            if seen_in(s2, p) {
                let k = choose|k: int| 0 <= k < s2.len() && (#[trigger] s2[k])@ == p;
                if k < s1.len() {
                    assert(s1[k] == s2[k]);
                } else {
                    assert(devices[n - 1].port@ == p);
                }
            }
        }
        if seen_in(s2, p) && !seen_in(seen, p) {
            if !(exists|i: int| 0 <= i < n - 1 && (#[trigger] devices[i]).port@ == p) {
                assert(devices[n - 1].port@ == p);
            }
        }
    }
}

/// In a watch run the ports tracked are among the ports seen, and a look at
/// the ports keeps it so: afterwards the ports seen are those seen before
/// together with every port listed in that look.
pub proof fn lemma_watch_seen(
    entries: Seq<(String, WatchEntry)>,
    seen: Seq<String>,
    devices: Seq<DeviceInfo>,
    ids: Seq<String>,
    now: Timestamp,
    p: Seq<char>,
)
    requires
        forall|q: Seq<char>| #[trigger] map_of(entries).dom().contains(q) ==> seen_in(seen, q),
    ensures
        ({
            let (m2, s2, ev2, ns2) = poll_arrivals(map_of(kept_entries(entries, devices)), seen, devices, devices.len() as int, ids, now);
            &&& seen_in(s2, p) <==> seen_in(seen, p) || port_listed(devices, p)
            &&& m2.dom().contains(p) ==> seen_in(s2, p)
        }),
{
    let k = kept_entries(entries, devices);
    let n = devices.len() as int;
    lemma_poll_seen(map_of(k), seen, devices, n, ids, now, p);
    lemma_watch_tracks_devices(entries, seen, devices, ids, now, p);
    lemma_split_subset(entries, devices);
    lemma_map_of_dom(k, p);
    lemma_map_of_dom(entries, p);
    let (m2, s2, ev2, ns2) = poll_arrivals(map_of(k), seen, devices, n, ids, now);
    if port_listed(devices, p) {
        let i = choose|i: int| 0 <= i < devices.len() && (#[trigger] devices[i]).port@ == p;
        lemma_last_occurrence(devices, i);
        if map_of(k).dom().contains(p) {
            let a = choose|a: int| 0 <= a < k.len() && (#[trigger] k[a]).0@ == p;
            let b = choose|b: int| 0 <= b < entries.len() && entries[b] == #[trigger] kept_entries(entries, devices)[a];
            assert(entries[b].0@ == p);
            assert(map_of(entries).dom().contains(p));
        }
    }
    if seen_in(s2, p) && !seen_in(seen, p) {
        let i = choose|i: int| 0 <= i < n && (#[trigger] devices[i]).port@ == p;
        assert(port_listed(devices, p));
    }
}

/// When watching starts with the ports tracked among the ports seen, it stays
/// so: every port that the start tracks has been seen.
pub proof fn lemma_watch_start_seen(
    m: Map<Seq<char>, WatchEntry>,
    seen: Seq<String>,
    events: Seq<HistoryEvent>,
    devices: Seq<DeviceInfo>,
    ids: Seq<String>,
    now: Timestamp,
    p: Seq<char>,
)
    requires
        forall|q: Seq<char>| #[trigger] m.dom().contains(q) ==> seen_in(seen, q),
    ensures
        ({
            let (m2, s2, ev2, ns2) = start_steps(m, seen, events, devices, ids, now);
            &&& m2.dom().contains(p) ==> seen_in(s2, p)
            &&& seen_in(seen, p) ==> seen_in(s2, p)
        }),
    decreases devices.len(),
{
    if devices.len() > 0 {
        lemma_watch_start_seen(m, seen, events, devices.drop_last(), ids, now, p);
        let (m1, s1, ev1, ns1) = start_steps(m, seen, events, devices.drop_last(), ids, now);
        let (m2, s2, ev2, ns2) = start_steps(m, seen, events, devices, ids, now);
        let d = devices.last();
        assert(s2 == s1.push(d.port));
        assert(s2[s1.len() as int]@ == d.port@);
        if seen_in(s1, p) {
            let k = choose|k: int| 0 <= k < s1.len() && (#[trigger] s1[k])@ == p;
            assert(s2[k] == s1[k]);
        }
    }
}

// ─── The events of a watch run, port by port ─────────────────────────────────

/// The events of one port, in their order.
pub open spec fn port_events(events: Seq<HistoryEvent>, p: Seq<char>) -> Seq<HistoryEvent>
    decreases events.len(),
{
    if events.len() == 0 {
        Seq::empty()
    } else {
        let rest = port_events(events.drop_last(), p);
        if events.last().port@ == p {
            rest.push(events.last())
        } else {
            rest
        }
    }
}

/// The event at place `k` of a port's events fits the alternation: at an even
/// place a connection without uptime; at an odd place a disconnection with
/// its uptime, without IDs, in the session of the connection before it.
pub open spec fn fits_place(s: Seq<HistoryEvent>, k: int) -> bool {
    let e = s[k];
    if k % 2 == 0 {
        e.event_type == EventType::Connected && e.uptime_secs is None
    } else {
        &&& e.event_type == EventType::Disconnected
        &&& e.uptime_secs is Some
        &&& e.vid is None && e.pid is None
        &&& e.session_id == s[k - 1].session_id
    }
}

/// A port's events alternate, starting with a connection (see `fits_place`).
pub open spec fn alternates(s: Seq<HistoryEvent>) -> bool {
    forall|k: int| 0 <= k < s.len() ==> #[trigger] fits_place(s, k)
}

/// The events of a watch run agree with what watch mode tracks: for every
/// port its events alternate, the port is tracked exactly when its last event
/// is a connection, and then the tracking entry carries that connection's
/// session ID.
pub open spec fn run_agrees(run: Seq<HistoryEvent>, m: Map<Seq<char>, WatchEntry>) -> bool {
    forall|p: Seq<char>| #[trigger] alternates(port_events(run, p))
        && (m.dom().contains(p) <==> port_events(run, p).len() % 2 == 1)
        && (m.dom().contains(p) ==> port_events(run, p).last().session_id == m[p].session_id)
}

proof fn lemma_port_events_push(s: Seq<HistoryEvent>, e: HistoryEvent, p: Seq<char>)
    ensures
        port_events(s.push(e), p) == if e.port@ == p { port_events(s, p).push(e) } else { port_events(s, p) },
{
    assert(s.push(e).drop_last() =~= s);
}

proof fn lemma_port_events_concat(a: Seq<HistoryEvent>, b: Seq<HistoryEvent>, p: Seq<char>)
    ensures
        port_events(a + b, p) == port_events(a, p) + port_events(b, p),
    decreases b.len(),
{
    if b.len() == 0 {
        assert(a + b =~= a);
        assert(port_events(a, p) + Seq::<HistoryEvent>::empty() =~= port_events(a, p));
    } else {
        lemma_port_events_concat(a, b.drop_last(), p);
        assert((a + b).drop_last() =~= a + b.drop_last());
        assert((a + b).last() == b.last());
        if b.last().port@ == p {
            assert(port_events(a, p) + port_events(b.drop_last(), p).push(b.last())
                =~= (port_events(a, p) + port_events(b.drop_last(), p)).push(b.last()));
        }
    }
}

proof fn lemma_alternates_push(s: Seq<HistoryEvent>, x: HistoryEvent)
    requires
        alternates(s),
        s.len() % 2 == 0 ==> x.event_type == EventType::Connected && x.uptime_secs is None,
        s.len() % 2 == 1 ==> x.event_type == EventType::Disconnected && x.uptime_secs is Some
            && x.vid is None && x.pid is None && x.session_id == s.last().session_id,
    ensures
        alternates(s.push(x)),
{
    let t = s.push(x);
    assert forall|k: int| 0 <= k < t.len() implies #[trigger] fits_place(t, k) by {
        if k < s.len() {
            assert(fits_place(s, k));
            assert(t[k] == s[k]);
            if k > 0 {
                assert(t[k - 1] == s[k - 1]);
            }
        } else {
            assert(t[k] == x);
            if k > 0 {
                assert(t[k - 1] == s[k - 1]);
            }
        }
    }
}

/// What one look's arrivals do to one port: nothing, or, for a port that was
/// not tracked, one connection and a tracking entry in its session.
proof fn lemma_arrivals_at_port(
    m: Map<Seq<char>, WatchEntry>,
    seen: Seq<String>,
    devices: Seq<DeviceInfo>,
    n: int,
    ids: Seq<String>,
    now: Timestamp,
    p: Seq<char>,
)
    requires
        0 <= n <= devices.len(),
    ensures
        ({
            let (m2, s2, ev2, ns2) = poll_arrivals(m, seen, devices, n, ids, now);
            let pe = port_events(ev2, p);
            ||| (pe.len() == 0 && (m2.dom().contains(p) <==> m.dom().contains(p))
                && (m.dom().contains(p) ==> m2[p] == m[p]))
            ||| (pe.len() == 1 && !m.dom().contains(p) && m2.dom().contains(p)
                && pe[0].event_type == EventType::Connected && pe[0].uptime_secs is None
                && pe[0].session_id == m2[p].session_id
                && port_listed(devices, p))
        }),
    decreases n,
{
    if n > 0 {
        lemma_arrivals_at_port(m, seen, devices, n - 1, ids, now, p);
        let (m1, s1, ev1, ns1) = poll_arrivals(m, seen, devices, n - 1, ids, now);
        let d = devices[n - 1];
        if last_on_port(devices, n - 1) && !m1.dom().contains(d.port@) {
            let id = ids[n - 1];
            let ev = connection_event(d, id, now);
            assert(ev.port == d.port);
            lemma_port_events_push(ev1, ev, p);
            if d.port@ == p {
                assert(port_listed(devices, p)) by {
                    assert(devices[n - 1].port@ == p);
                }
            }
        }
    }
}

/// What the departures of one look do to one port: nothing, or, for a
/// tracked port that is no longer listed, one disconnection in the session of
/// its tracking entry.
proof fn lemma_departures_at_port(entries: Seq<(String, WatchEntry)>, devices: Seq<DeviceInfo>, now: Timestamp, p: Seq<char>)
    requires
        keys_unique(entries),
    ensures
        ({
            let pe = port_events(departure_events(gone_entries(entries, devices), now), p);
            &&& map_of(kept_entries(entries, devices)).dom().contains(p)
                <==> map_of(entries).dom().contains(p) && port_listed(devices, p)
            &&& map_of(kept_entries(entries, devices)).dom().contains(p)
                ==> map_of(kept_entries(entries, devices))[p] == map_of(entries)[p]
            &&& if map_of(entries).dom().contains(p) && !port_listed(devices, p) {
                &&& pe.len() == 1
                &&& pe[0].event_type == EventType::Disconnected
                &&& pe[0].uptime_secs is Some
                &&& pe[0].vid is None && pe[0].pid is None
                &&& pe[0].session_id == map_of(entries)[p].session_id
            } else {
                pe.len() == 0
            }
        }),
    decreases entries.len(),
{
    if entries.len() > 0 {
        let t = entries.drop_last();
        let x = entries.last();
        assert(keys_unique(t)) by {
            assert forall|a: int, b: int| 0 <= a < t.len() && 0 <= b < t.len() && a != b implies
                (#[trigger] t[a]).0@ != (#[trigger] t[b]).0@ by {
                assert(t[a] == entries[a]);
                assert(t[b] == entries[b]);
            }
        }
        lemma_departures_at_port(t, devices, now, p);
        let g = gone_entries(t, devices);
        let kt = kept_entries(t, devices);
        if port_listed(devices, x.0@) {
            assert(kt.push(x).drop_last() =~= kt);
            assert(map_of(kept_entries(entries, devices)) == map_of(kt).insert(x.0@, x.1));
        } else {
            assert(kept_entries(entries, devices) == kt);
        }
        assert(map_of(entries) == map_of(t).insert(x.0@, x.1));
        if x.0@ == p {
            lemma_map_of_dom(t, p);
            if map_of(t).dom().contains(p) {
                let i = choose|i: int| 0 <= i < t.len() && (#[trigger] t[i]).0@ == p;
                assert(entries[i] == t[i]);
                assert(entries[entries.len() - 1] == x);
            }
        }
        if !port_listed(devices, x.0@) {
            let ev = departure_event(x, now);
            assert(departure_events(g.push(x), now) =~= departure_events(g, now).push(ev));
            assert(ev.port == x.0);
            lemma_port_events_push(departure_events(g, now), ev, p);
        }
    }
}

/// A look at the ports keeps the run's events in agreement with what watch
/// mode tracks (see `run_agrees`): each port's events go on alternating
/// between connection and disconnection, starting with a connection, and a
/// disconnection is in the session of the connection before it.
pub proof fn lemma_watch_run_alternates(
    run: Seq<HistoryEvent>,
    entries: Seq<(String, WatchEntry)>,
    seen: Seq<String>,
    devices: Seq<DeviceInfo>,
    ids: Seq<String>,
    now: Timestamp,
)
    requires
        keys_unique(entries),
        run_agrees(run, map_of(entries)),
    ensures
        ({
            let (m2, s2, ev2, ns2) = poll_arrivals(map_of(kept_entries(entries, devices)), seen, devices, devices.len() as int, ids, now);
            run_agrees(run + ev2 + departure_events(gone_entries(entries, devices), now), m2)
        }),
{
    let mk = map_of(kept_entries(entries, devices));
    let n = devices.len() as int;
    let (m2, s2, ev2, ns2) = poll_arrivals(mk, seen, devices, n, ids, now);
    let dep = departure_events(gone_entries(entries, devices), now);
    let m = map_of(entries);
    assert forall|p: Seq<char>| #[trigger] alternates(port_events(run + ev2 + dep, p))
        && (m2.dom().contains(p) <==> port_events(run + ev2 + dep, p).len() % 2 == 1)
        && (m2.dom().contains(p) ==> port_events(run + ev2 + dep, p).last().session_id == m2[p].session_id) by {
        assert(alternates(port_events(run, p)));
        lemma_port_events_concat(run, ev2, p);
        lemma_port_events_concat(run + ev2, dep, p);
        lemma_arrivals_at_port(mk, seen, devices, n, ids, now, p);
        lemma_departures_at_port(entries, devices, now, p);
        let r = port_events(run, p);
        let a = port_events(ev2, p);
        let d = port_events(dep, p);
        let all = port_events(run + ev2 + dep, p);
        assert(all == r + a + d);
        if a.len() == 0 {
            assert(r + a =~= r);
            if m.dom().contains(p) && !port_listed(devices, p) {
                assert(d =~= seq![d[0]]);
                assert(all =~= r.push(d[0]));
                lemma_alternates_push(r, d[0]);
            } else {
                assert(d.len() == 0);
                assert(all =~= r);
            }
        } else {
            assert(a =~= seq![a[0]]);
            assert(!m.dom().contains(p));
            assert(d.len() == 0);
            assert(all =~= r.push(a[0]));
            lemma_alternates_push(r, a[0]);
        }
    }
}

/// The connections recorded when watching starts, one per device in order,
/// each with the session ID of the same index.
pub open spec fn start_events(devices: Seq<DeviceInfo>, ids: Seq<String>, now: Timestamp) -> Seq<HistoryEvent>
    decreases devices.len(),
{
    if devices.len() == 0 {
        Seq::empty()
    } else {
        start_events(devices.drop_last(), ids, now).push(connection_event(devices.last(), ids[devices.len() - 1], now))
    }
}

/// No two devices are on the same port.
pub open spec fn ports_distinct(devices: Seq<DeviceInfo>) -> bool {
    forall|i: int, j: int| 0 <= i < devices.len() && 0 <= j < devices.len() && i != j
        ==> (#[trigger] devices[i]).port@ != (#[trigger] devices[j]).port@
}

/// Watching starts in agreement (see `run_agrees`) where the devices present
/// are on distinct ports that are not tracked yet: the start adds one
/// connection per device after the events already recorded, and the run's
/// events then agree with what is tracked.
pub proof fn lemma_watch_start_alternates(
    run: Seq<HistoryEvent>,
    m: Map<Seq<char>, WatchEntry>,
    seen: Seq<String>,
    events: Seq<HistoryEvent>,
    devices: Seq<DeviceInfo>,
    ids: Seq<String>,
    now: Timestamp,
)
    requires
        run_agrees(run, m),
        ports_distinct(devices),
        forall|i: int| 0 <= i < devices.len() ==> !m.dom().contains(#[trigger] devices[i].port@),
        ids.len() >= devices.len(),
    ensures
        ({
            let (m2, s2, ev2, ns2) = start_steps(m, seen, events, devices, ids, now);
            &&& ev2 == events + start_events(devices, ids, now)
            &&& run_agrees(run + start_events(devices, ids, now), m2)
            &&& forall|p: Seq<char>| #[trigger] m2.dom().contains(p)
                <==> m.dom().contains(p) || exists|i: int| 0 <= i < devices.len() && (#[trigger] devices[i]).port@ == p
        }),
    decreases devices.len(),
{
    if devices.len() == 0 {
        assert(events + Seq::<HistoryEvent>::empty() =~= events);
        assert(run + Seq::<HistoryEvent>::empty() =~= run);
    } else {
        let t = devices.drop_last();
        let d = devices.last();
        let k = devices.len() - 1;
        assert(ports_distinct(t)) by {
            assert forall|i: int, j: int| 0 <= i < t.len() && 0 <= j < t.len() && i != j
                implies (#[trigger] t[i]).port@ != (#[trigger] t[j]).port@ by {
                assert(t[i] == devices[i]);
                assert(t[j] == devices[j]);
            }
        }
        assert forall|i: int| 0 <= i < t.len() implies !m.dom().contains(#[trigger] t[i].port@) by {
            assert(t[i] == devices[i]);
        }
        lemma_watch_start_alternates(run, m, seen, events, t, ids, now);
        let (m1, s1, ev1, ns1) = start_steps(m, seen, events, t, ids, now);
        let (m2, s2, ev2, ns2) = start_steps(m, seen, events, devices, ids, now);
        let se1 = start_events(t, ids, now);
        let ev = connection_event(d, ids[k], now);
        let q = d.port@;
        assert(ev2 == ev1.push(ev));
        assert(events + se1.push(ev) =~= (events + se1).push(ev));
        assert(run + se1.push(ev) =~= (run + se1).push(ev));
        assert(!m1.dom().contains(q)) by {
            assert(!m.dom().contains(devices[k].port@));
            if exists|i: int| 0 <= i < t.len() && (#[trigger] t[i]).port@ == q {
                let i = choose|i: int| 0 <= i < t.len() && (#[trigger] t[i]).port@ == q;
                assert(t[i] == devices[i]);
            }
        }
        assert forall|p: Seq<char>| #[trigger] alternates(port_events(run + se1.push(ev), p))
            && (m2.dom().contains(p) <==> port_events(run + se1.push(ev), p).len() % 2 == 1)
            && (m2.dom().contains(p) ==> port_events(run + se1.push(ev), p).last().session_id == m2[p].session_id) by {
            assert(alternates(port_events(run + se1, p)));
            lemma_port_events_push(run + se1, ev, p);
            if p == q {
                lemma_alternates_push(port_events(run + se1, p), ev);
            }
        }
        assert forall|p: Seq<char>| #[trigger] m2.dom().contains(p)
            <==> m.dom().contains(p) || exists|i: int| 0 <= i < devices.len() && (#[trigger] devices[i]).port@ == p by {
            if m1.dom().contains(p) && !m.dom().contains(p) {
                let i = choose|i: int| 0 <= i < t.len() && (#[trigger] t[i]).port@ == p;
                assert(devices[i] == t[i]);
            }
            if exists|i: int| 0 <= i < devices.len() && (#[trigger] devices[i]).port@ == p {
                let i = choose|i: int| 0 <= i < devices.len() && (#[trigger] devices[i]).port@ == p;
                if i < k {
                    assert(t[i] == devices[i]);
                }
            }
        }
    }
}

/// A run begins in agreement: no events and nothing tracked.
pub proof fn lemma_watch_run_begins()
    ensures
        run_agrees(Seq::empty(), Map::empty()),
{
    assert forall|p: Seq<char>| #[trigger] alternates(port_events(Seq::<HistoryEvent>::empty(), p))
        && (Map::<Seq<char>, WatchEntry>::empty().dom().contains(p) <==> port_events(Seq::<HistoryEvent>::empty(), p).len() % 2 == 1)
        && (Map::<Seq<char>, WatchEntry>::empty().dom().contains(p)
            ==> port_events(Seq::<HistoryEvent>::empty(), p).last().session_id == Map::<Seq<char>, WatchEntry>::empty()[p].session_id) by {
        assert(port_events(Seq::<HistoryEvent>::empty(), p).len() == 0);
    }
}

// ─── One look at the ports, port by port ─────────────────────────────────────

/// The announcements about one port, in their order.
pub open spec fn port_notices(notices: Seq<WatchNotice>, p: Seq<char>) -> Seq<WatchNotice>
    decreases notices.len(),
{
    if notices.len() == 0 {
        Seq::empty()
    } else {
        let rest = port_notices(notices.drop_last(), p);
        if notices.last().port@ == p {
            rest.push(notices.last())
        } else {
            rest
        }
    }
}

proof fn lemma_port_notices_push(s: Seq<WatchNotice>, x: WatchNotice, p: Seq<char>)
    ensures
        port_notices(s.push(x), p) == if x.port@ == p { port_notices(s, p).push(x) } else { port_notices(s, p) },
{
    assert(s.push(x).drop_last() =~= s);
}

proof fn lemma_port_notices_concat(a: Seq<WatchNotice>, b: Seq<WatchNotice>, p: Seq<char>)
    ensures
        port_notices(a + b, p) == port_notices(a, p) + port_notices(b, p),
    decreases b.len(),
{
    if b.len() == 0 {
        assert(a + b =~= a);
        assert(port_notices(a, p) + Seq::<WatchNotice>::empty() =~= port_notices(a, p));
    } else {
        lemma_port_notices_concat(a, b.drop_last(), p);
        assert((a + b).drop_last() =~= a + b.drop_last());
        assert((a + b).last() == b.last());
        if b.last().port@ == p {
            assert(port_notices(a, p) + port_notices(b.drop_last(), p).push(b.last())
                =~= (port_notices(a, p) + port_notices(b.drop_last(), p)).push(b.last()));
        }
    }
}

proof fn lemma_seen_push_other(seen: Seq<String>, x: String, p: Seq<char>)
    requires
        x@ != p,
    ensures
        seen_in(seen.push(x), p) <==> seen_in(seen, p),
{
    if seen_in(seen, p) {
        let k = choose|k: int| 0 <= k < seen.len() && (#[trigger] seen[k])@ == p;
        assert(seen.push(x)[k] == seen[k]);
    }
    if seen_in(seen.push(x), p) {
        let k = choose|k: int| 0 <= k < seen.push(x).len() && (#[trigger] seen.push(x)[k])@ == p;
        assert(k < seen.len());
        assert(seen.push(x)[k] == seen[k]);
    }
}

/// What one look's arrivals announce of one port: nothing where they record
/// nothing for it (and the ports seen then hold it as before), else one
/// arrival, announced as reconnected exactly where the port was seen before.
proof fn lemma_arrival_notices_at_port(
    m: Map<Seq<char>, WatchEntry>,
    seen: Seq<String>,
    devices: Seq<DeviceInfo>,
    n: int,
    ids: Seq<String>,
    now: Timestamp,
    p: Seq<char>,
)
    requires
        0 <= n <= devices.len(),
    ensures
        ({
            let (m2, s2, ev2, ns2) = poll_arrivals(m, seen, devices, n, ids, now);
            let pe = port_events(ev2, p);
            let pn = port_notices(ns2, p);
            &&& pe.len() == pn.len()
            &&& pe.len() == 0 ==> (seen_in(s2, p) <==> seen_in(seen, p))
            &&& pe.len() == 1 ==> pn[0].kind == (if seen_in(seen, p) { WatchEventKind::Reconnected } else { WatchEventKind::Connected })
                && pn[0].uptime_secs is None
        }),
    decreases n,
{
    if n > 0 {
        lemma_arrival_notices_at_port(m, seen, devices, n - 1, ids, now, p);
        lemma_arrivals_at_port(m, seen, devices, n - 1, ids, now, p);
        let (m1, s1, ev1, ns1) = poll_arrivals(m, seen, devices, n - 1, ids, now);
        let d = devices[n - 1];
        if last_on_port(devices, n - 1) && !m1.dom().contains(d.port@) {
            let id = ids[n - 1];
            let ev = connection_event(d, id, now);
            let kind = if seen_in(s1, d.port@) { WatchEventKind::Reconnected } else { WatchEventKind::Connected };
            let no = arrival_notice(d, kind);
            lemma_port_events_push(ev1, ev, p);
            lemma_port_notices_push(ns1, no, p);
            if d.port@ != p {
                lemma_seen_push_other(s1, d.port, p);
            }
        }
    }
}

/// What one look's departures announce of one port: the one disconnection
/// that they record for it, with the same uptime, or nothing.
proof fn lemma_departure_notices_at_port(entries: Seq<(String, WatchEntry)>, devices: Seq<DeviceInfo>, now: Timestamp, p: Seq<char>)
    requires
        keys_unique(entries),
    ensures
        ({
            let g = gone_entries(entries, devices);
            let pe = port_events(departure_events(g, now), p);
            let pn = port_notices(departure_notices(g, now), p);
            &&& pe.len() == pn.len()
            &&& pe.len() == 1 ==> pn[0].kind == WatchEventKind::Disconnected
                && pe[0].uptime_secs == Some(spec_seconds_between(now, map_of(entries)[p].connected_at) as i64)
                && pn[0].uptime_secs == pe[0].uptime_secs
        }),
    decreases entries.len(),
{
    lemma_departures_at_port(entries, devices, now, p);
    if entries.len() > 0 {
        let t = entries.drop_last();
        let x = entries.last();
        assert(keys_unique(t)) by {
            assert forall|a: int, b: int| 0 <= a < t.len() && 0 <= b < t.len() && a != b implies
                (#[trigger] t[a]).0@ != (#[trigger] t[b]).0@ by {
                assert(t[a] == entries[a]);
                assert(t[b] == entries[b]);
            }
        }
        lemma_departure_notices_at_port(t, devices, now, p);
        lemma_departures_at_port(t, devices, now, p);
        let g = gone_entries(t, devices);
        assert(map_of(entries) == map_of(t).insert(x.0@, x.1));
        if !port_listed(devices, x.0@) {
            let ev = departure_event(x, now);
            let no = departure_notice(x, now);
            assert(departure_events(g.push(x), now) =~= departure_events(g, now).push(ev));
            assert(departure_notices(g.push(x), now) =~= departure_notices(g, now).push(no));
            lemma_port_events_push(departure_events(g, now), ev, p);
            lemma_port_notices_push(departure_notices(g, now), no, p);
            if x.0@ == p {
                lemma_map_of_dom(t, p);
                if map_of(t).dom().contains(p) {
                    let i = choose|i: int| 0 <= i < t.len() && (#[trigger] t[i]).0@ == p;
                    assert(entries[i] == t[i]);
                    assert(entries[entries.len() - 1] == x);
                }
            }
        }
    }
}

/// One look at the ports, port by port: a listed port that was not tracked
/// is announced as reconnected where it was seen before this look, else as
/// connected, and gains one connection; a tracked port that is no longer
/// listed is announced as disconnected with its uptime since it connected,
/// and gains one disconnection with that uptime; any other port gets nothing.
/// Afterwards the tracked ports are the listed ones and, where the tracked
/// ports were among those seen, the ports seen are those seen before together
/// with the listed ones.
pub proof fn lemma_watch_poll_law(
    entries: Seq<(String, WatchEntry)>,
    seen: Seq<String>,
    devices: Seq<DeviceInfo>,
    ids: Seq<String>,
    now: Timestamp,
    p: Seq<char>,
)
    requires
        keys_unique(entries),
        forall|q: Seq<char>| #[trigger] map_of(entries).dom().contains(q) ==> seen_in(seen, q),
    ensures
        ({
            let k = map_of(entries);
            let gone = gone_entries(entries, devices);
            let (m2, s2, ev2, ns2) = poll_arrivals(map_of(kept_entries(entries, devices)), seen, devices, devices.len() as int, ids, now);
            let pe = port_events(ev2 + departure_events(gone, now), p);
            let pn = port_notices(ns2 + departure_notices(gone, now), p);
            &&& if port_listed(devices, p) && !k.dom().contains(p) {
                &&& pe.len() == 1 && pn.len() == 1
                &&& pe[0].event_type == EventType::Connected && pe[0].uptime_secs is None
                &&& pn[0].kind == (if seen_in(seen, p) { WatchEventKind::Reconnected } else { WatchEventKind::Connected })
                &&& pn[0].uptime_secs is None
            } else if k.dom().contains(p) && !port_listed(devices, p) {
                &&& pe.len() == 1 && pn.len() == 1
                &&& pe[0].event_type == EventType::Disconnected
                &&& pn[0].kind == WatchEventKind::Disconnected
                &&& pe[0].uptime_secs == Some(spec_seconds_between(now, k[p].connected_at) as i64)
                &&& pn[0].uptime_secs == pe[0].uptime_secs
            } else {
                pe.len() == 0 && pn.len() == 0
            }
            &&& m2.dom().contains(p) <==> port_listed(devices, p)
            &&& seen_in(s2, p) <==> seen_in(seen, p) || port_listed(devices, p)
        }),
{
    let mk = map_of(kept_entries(entries, devices));
    let n = devices.len() as int;
    let gone = gone_entries(entries, devices);
    let (m2, s2, ev2, ns2) = poll_arrivals(mk, seen, devices, n, ids, now);
    lemma_arrivals_at_port(mk, seen, devices, n, ids, now, p);
    lemma_arrival_notices_at_port(mk, seen, devices, n, ids, now, p);
    lemma_departures_at_port(entries, devices, now, p);
    lemma_departure_notices_at_port(entries, devices, now, p);
    lemma_port_events_concat(ev2, departure_events(gone, now), p);
    lemma_port_notices_concat(ns2, departure_notices(gone, now), p);
    lemma_watch_tracks_devices(entries, seen, devices, ids, now, p);
    lemma_watch_seen(entries, seen, devices, ids, now, p);
    let a = port_events(ev2, p);
    let an = port_notices(ns2, p);
    let d = port_events(departure_events(gone, now), p);
    let dn = port_notices(departure_notices(gone, now), p);
    if a.len() == 0 {
        assert(a + d =~= d);
        assert(an + dn =~= dn);
    } else {
        assert(d.len() == 0);
        assert(a + d =~= a);
        assert(an + dn =~= an);
    }
}

// ─── A whole watch run ───────────────────────────────────────────────────────

/// Look `k` of a watch run, as `watch_poll` states it: the tracked entries
/// `entries[k]` and the ports seen `seen[k]` become `entries[k + 1]` (no port
/// twice) and `seen[k + 1]` on the devices `devices[k]` found at `nows[k]`,
/// with the session IDs `ids[k]`, and the events of the run grow from
/// `runs[k]` to `runs[k + 1]` by what the look records.
pub open spec fn poll_step(
    entries: Seq<Seq<(String, WatchEntry)>>,
    seen: Seq<Seq<String>>,
    runs: Seq<Seq<HistoryEvent>>,
    devices: Seq<Seq<DeviceInfo>>,
    ids: Seq<Seq<String>>,
    nows: Seq<Timestamp>,
    k: int,
) -> bool {
    let (m2, s2, ev2, ns2) = poll_arrivals(map_of(kept_entries(entries[k], devices[k])), seen[k], devices[k],
        devices[k].len() as int, ids[k], nows[k]);
    &&& keys_unique(entries[k + 1])
    &&& map_of(entries[k + 1]) == m2
    &&& seen[k + 1] == s2
    &&& runs[k + 1] == runs[k] + ev2 + departure_events(gone_entries(entries[k], devices[k]), nows[k])
}

/// A watch run: watching starts with nothing tracked and nothing seen on the
/// devices `first` (on distinct ports) at `start`, with the session IDs
/// `first_ids`, which gives the tracked entries `entries[0]`, the ports seen
/// `seen[0]` and the run's first events `runs[0]`; then each look follows
/// (see `poll_step`).
pub open spec fn watch_run(
    history: Seq<HistoryEvent>,
    first: Seq<DeviceInfo>,
    first_ids: Seq<String>,
    start: Timestamp,
    entries: Seq<Seq<(String, WatchEntry)>>,
    seen: Seq<Seq<String>>,
    runs: Seq<Seq<HistoryEvent>>,
    devices: Seq<Seq<DeviceInfo>>,
    ids: Seq<Seq<String>>,
    nows: Seq<Timestamp>,
) -> bool {
    let (m0, s0, ev0, ns0) = start_steps(Map::empty(), Seq::empty(), history, first, first_ids, start);
    &&& ports_distinct(first)
    &&& first_ids.len() >= first.len()
    &&& entries.len() == devices.len() + 1 && seen.len() == devices.len() + 1 && runs.len() == devices.len() + 1
    &&& ids.len() == devices.len() && nows.len() == devices.len()
    &&& keys_unique(entries[0])
    &&& map_of(entries[0]) == m0
    &&& seen[0] == s0
    &&& runs[0] == start_events(first, first_ids, start)
    &&& forall|k: int| 0 <= k < devices.len() ==> #[trigger] poll_step(entries, seen, runs, devices, ids, nows, k)
}

proof fn lemma_watch_run_prefix(
    history: Seq<HistoryEvent>,
    first: Seq<DeviceInfo>,
    first_ids: Seq<String>,
    start: Timestamp,
    entries: Seq<Seq<(String, WatchEntry)>>,
    seen: Seq<Seq<String>>,
    runs: Seq<Seq<HistoryEvent>>,
    devices: Seq<Seq<DeviceInfo>>,
    ids: Seq<Seq<String>>,
    nows: Seq<Timestamp>,
    k: int,
)
    requires
        watch_run(history, first, first_ids, start, entries, seen, runs, devices, ids, nows),
        0 <= k <= devices.len(),
    ensures
        keys_unique(entries[k]),
        run_agrees(runs[k], map_of(entries[k])),
        forall|q: Seq<char>| #[trigger] map_of(entries[k]).dom().contains(q) ==> seen_in(seen[k], q),
    decreases k,
{
    if k == 0 {
        lemma_watch_run_begins();
        assert forall|i: int| 0 <= i < first.len() implies !Map::<Seq<char>, WatchEntry>::empty().dom().contains(#[trigger] first[i].port@) by {}
        lemma_watch_start_alternates(Seq::empty(), Map::empty(), Seq::empty(), history, first, first_ids, start);
        assert(Seq::<HistoryEvent>::empty() + start_events(first, first_ids, start) =~= start_events(first, first_ids, start));
        assert forall|q: Seq<char>| #[trigger] map_of(entries[0]).dom().contains(q) implies seen_in(seen[0], q) by {
            lemma_watch_start_seen(Map::empty(), Seq::empty(), history, first, first_ids, start, q);
        }
    } else {
        lemma_watch_run_prefix(history, first, first_ids, start, entries, seen, runs, devices, ids, nows, k - 1);
        assert(poll_step(entries, seen, runs, devices, ids, nows, k - 1));
        lemma_watch_run_alternates(runs[k - 1], entries[k - 1], seen[k - 1], devices[k - 1], ids[k - 1], nows[k - 1]);
        assert forall|q: Seq<char>| #[trigger] map_of(entries[k]).dom().contains(q) implies seen_in(seen[k], q) by {
            lemma_watch_seen(entries[k - 1], seen[k - 1], devices[k - 1], ids[k - 1], nows[k - 1], q);
        }
    }
}

/// Over a whole watch run (see `watch_run`), after every look, the events
/// that the run recorded alternate port by port: connection, disconnection,
/// connection, … starting with a connection; every connection has no uptime;
/// every disconnection has its uptime, no IDs, and the session ID of the
/// connection before it on that port. A port is tracked exactly when its last
/// event is a connection, and the ports tracked are among the ports seen.
pub proof fn lemma_watch_run_law(
    history: Seq<HistoryEvent>,
    first: Seq<DeviceInfo>,
    first_ids: Seq<String>,
    start: Timestamp,
    entries: Seq<Seq<(String, WatchEntry)>>,
    seen: Seq<Seq<String>>,
    runs: Seq<Seq<HistoryEvent>>,
    devices: Seq<Seq<DeviceInfo>>,
    ids: Seq<Seq<String>>,
    nows: Seq<Timestamp>,
    k: int,
    p: Seq<char>,
)
    requires
        watch_run(history, first, first_ids, start, entries, seen, runs, devices, ids, nows),
        0 <= k <= devices.len(),
    ensures
        forall|i: int| 0 <= i < port_events(runs[k], p).len() ==> #[trigger] fits_place(port_events(runs[k], p), i),
        map_of(entries[k]).dom().contains(p) <==> port_events(runs[k], p).len() % 2 == 1,
        map_of(entries[k]).dom().contains(p) ==> seen_in(seen[k], p),
{
    lemma_watch_run_prefix(history, first, first_ids, start, entries, seen, runs, devices, ids, nows, k);
    assert(alternates(port_events(runs[k], p)));
}

/// Every ID of the list is the text of a version 4 UUID.
pub open spec fn ids_v4(ids: Seq<String>) -> bool {
    forall|i: int| 0 <= i < ids.len() ==> is_v4_uuid_text(#[trigger] ids[i]@)
}

/// Every event's session ID is the text of a version 4 UUID.
pub open spec fn events_v4(events: Seq<HistoryEvent>) -> bool {
    forall|i: int| 0 <= i < events.len() ==> is_v4_uuid_text(#[trigger] events[i].session_id@)
}

/// Every tracking entry's session ID is the text of a version 4 UUID.
pub open spec fn tracked_v4(m: Map<Seq<char>, WatchEntry>) -> bool {
    forall|p: Seq<char>| #[trigger] m.dom().contains(p) ==> is_v4_uuid_text(m[p].session_id@)
}

proof fn lemma_events_v4_concat(a: Seq<HistoryEvent>, b: Seq<HistoryEvent>)
    requires
        events_v4(a),
        events_v4(b),
    ensures
        events_v4(a + b),
{
    assert forall|i: int| 0 <= i < (a + b).len() implies is_v4_uuid_text(#[trigger] (a + b)[i].session_id@) by {
        if i < a.len() {
            assert((a + b)[i] == a[i]);
        } else {
            assert((a + b)[i] == b[i - a.len()]);
        }
    }
}

proof fn lemma_events_v4_push(a: Seq<HistoryEvent>, e: HistoryEvent)
    requires
        events_v4(a),
        is_v4_uuid_text(e.session_id@),
    ensures
        events_v4(a.push(e)),
{
    assert forall|i: int| 0 <= i < a.push(e).len() implies is_v4_uuid_text(#[trigger] a.push(e)[i].session_id@) by {
        if i < a.len() {
            assert(a.push(e)[i] == a[i]);
        }
    }
}

proof fn lemma_poll_ids_v4(
    m: Map<Seq<char>, WatchEntry>,
    seen: Seq<String>,
    devices: Seq<DeviceInfo>,
    n: int,
    ids: Seq<String>,
    now: Timestamp,
)
    requires
        0 <= n <= devices.len(),
        n <= ids.len(),
        tracked_v4(m),
        ids_v4(ids),
    ensures
        tracked_v4(poll_arrivals(m, seen, devices, n, ids, now).0),
        events_v4(poll_arrivals(m, seen, devices, n, ids, now).2),
    decreases n,
{
    if n > 0 {
        lemma_poll_ids_v4(m, seen, devices, n - 1, ids, now);
        let (m1, s1, ev1, ns1) = poll_arrivals(m, seen, devices, n - 1, ids, now);
        let d = devices[n - 1];
        if last_on_port(devices, n - 1) && !m1.dom().contains(d.port@) {
            assert(is_v4_uuid_text(ids[n - 1]@));
            lemma_events_v4_push(ev1, connection_event(d, ids[n - 1], now));
        }
    }
    else {
        assert(events_v4(Seq::<HistoryEvent>::empty()));
    }
}

proof fn lemma_departures_v4(entries: Seq<(String, WatchEntry)>, devices: Seq<DeviceInfo>, now: Timestamp)
    requires
        keys_unique(entries),
        tracked_v4(map_of(entries)),
    ensures
        events_v4(departure_events(gone_entries(entries, devices), now)),
        tracked_v4(map_of(kept_entries(entries, devices))),
{
    lemma_split_subset(entries, devices);
    let g = gone_entries(entries, devices);
    let d = departure_events(g, now);
    assert forall|i: int| 0 <= i < d.len() implies is_v4_uuid_text(#[trigger] d[i].session_id@) by {
        let j = choose|j: int| 0 <= j < entries.len() && entries[j] == #[trigger] gone_entries(entries, devices)[i];
        crate::port_map::lemma_map_of_entry(entries, j);
        assert(d[i] == departure_event(g[i], now));
    }
    assert forall|p: Seq<char>| #[trigger] map_of(kept_entries(entries, devices)).dom().contains(p)
        implies is_v4_uuid_text(map_of(kept_entries(entries, devices))[p].session_id@) by {
        lemma_departures_at_port(entries, devices, now, p);
    }
}

proof fn lemma_start_ids_v4(
    m: Map<Seq<char>, WatchEntry>,
    seen: Seq<String>,
    events: Seq<HistoryEvent>,
    devices: Seq<DeviceInfo>,
    ids: Seq<String>,
    now: Timestamp,
)
    requires
        devices.len() <= ids.len(),
        tracked_v4(m),
        ids_v4(ids),
    ensures
        tracked_v4(start_steps(m, seen, events, devices, ids, now).0),
        events_v4(start_events(devices, ids, now)),
    decreases devices.len(),
{
    if devices.len() > 0 {
        lemma_start_ids_v4(m, seen, events, devices.drop_last(), ids, now);
        assert(is_v4_uuid_text(ids[devices.len() - 1]@));
        lemma_events_v4_push(start_events(devices.drop_last(), ids, now),
            connection_event(devices.last(), ids[devices.len() - 1], now));
    } else {
        assert(events_v4(Seq::<HistoryEvent>::empty()));
    }
}

/// Over a whole watch run (see `watch_run`) whose session IDs are all texts
/// of version 4 UUIDs, as `fresh_session_ids` gives them, every event that the
/// run records, and every tracking entry, carries such an ID.
pub proof fn lemma_watch_run_ids(
    history: Seq<HistoryEvent>,
    first: Seq<DeviceInfo>,
    first_ids: Seq<String>,
    start: Timestamp,
    entries: Seq<Seq<(String, WatchEntry)>>,
    seen: Seq<Seq<String>>,
    runs: Seq<Seq<HistoryEvent>>,
    devices: Seq<Seq<DeviceInfo>>,
    ids: Seq<Seq<String>>,
    nows: Seq<Timestamp>,
    k: int,
)
    requires
        watch_run(history, first, first_ids, start, entries, seen, runs, devices, ids, nows),
        ids_v4(first_ids),
        forall|j: int| 0 <= j < ids.len() ==> ids_v4(#[trigger] ids[j]) && ids[j].len() >= devices[j].len(),
        0 <= k <= devices.len(),
    ensures
        events_v4(runs[k]),
        tracked_v4(map_of(entries[k])),
    decreases k,
{
    if k == 0 {
        lemma_start_ids_v4(Map::empty(), Seq::empty(), history, first, first_ids, start);
    } else {
        lemma_watch_run_ids(history, first, first_ids, start, entries, seen, runs, devices, ids, nows, k - 1);
        lemma_watch_run_prefix(history, first, first_ids, start, entries, seen, runs, devices, ids, nows, k - 1);
        assert(poll_step(entries, seen, runs, devices, ids, nows, k - 1));
        let e = entries[k - 1];
        let ds = devices[k - 1];
        assert(ids_v4(ids[k - 1]));
        lemma_departures_v4(e, ds, nows[k - 1]);
        lemma_poll_ids_v4(map_of(kept_entries(e, ds)), seen[k - 1], ds, ds.len() as int, ids[k - 1], nows[k - 1]);
        let (m2, s2, ev2, ns2) = poll_arrivals(map_of(kept_entries(e, ds)), seen[k - 1], ds, ds.len() as int, ids[k - 1], nows[k - 1]);
        lemma_events_v4_concat(runs[k - 1], ev2);
        lemma_events_v4_concat(runs[k - 1] + ev2, departure_events(gone_entries(e, ds), nows[k - 1]));
    }
}

// ─── The announcements when watching starts ──────────────────────────────────

proof fn lemma_start_events_ports(devices: Seq<DeviceInfo>, ids: Seq<String>, now: Timestamp)
    ensures
        start_events(devices, ids, now).len() == devices.len(),
        forall|j: int| 0 <= j < devices.len() ==> (#[trigger] start_events(devices, ids, now)[j]).port == devices[j].port,
    decreases devices.len(),
{
    if devices.len() > 0 {
        let t = devices.drop_last();
        lemma_start_events_ports(t, ids, now);
        assert forall|j: int| 0 <= j < devices.len() implies (#[trigger] start_events(devices, ids, now)[j]).port == devices[j].port by {
            if j < t.len() {
                assert(start_events(devices, ids, now)[j] == start_events(t, ids, now)[j]);
                assert(t[j] == devices[j]);
            }
        }
    }
}

proof fn lemma_start_split(
    m: Map<Seq<char>, WatchEntry>,
    seen: Seq<String>,
    events: Seq<HistoryEvent>,
    devices: Seq<DeviceInfo>,
    ids: Seq<String>,
    now: Timestamp,
)
    ensures
        start_steps(m, seen, events, devices, ids, now).2 == events + start_events(devices, ids, now),
        start_steps(m, seen, events, devices, ids, now).3.len() == devices.len(),
    decreases devices.len(),
{
    if devices.len() == 0 {
        assert(events + Seq::<HistoryEvent>::empty() =~= events);
    } else {
        let t = devices.drop_last();
        lemma_start_split(m, seen, events, t, ids, now);
        let ev = connection_event(devices.last(), ids[devices.len() - 1], now);
        assert(events + start_events(t, ids, now).push(ev) =~= (events + start_events(t, ids, now)).push(ev));
    }
}

/// When watching starts, each device present is announced in its place, with
/// its port and board and no uptime: as reconnected exactly when some event
/// of the history, of either kind, or an earlier device of the same start is
/// on its port, else as connected.
pub proof fn lemma_start_announcements(
    m: Map<Seq<char>, WatchEntry>,
    seen: Seq<String>,
    events: Seq<HistoryEvent>,
    devices: Seq<DeviceInfo>,
    ids: Seq<String>,
    now: Timestamp,
    i: int,
)
    requires
        0 <= i < devices.len(),
    ensures
        ({
            let ns = start_steps(m, seen, events, devices, ids, now).3;
            &&& ns.len() == devices.len()
            &&& ns[i].port == devices[i].port
            &&& ns[i].board == devices[i].board_name
            &&& ns[i].uptime_secs is None
            &&& ns[i].kind == if (exists|k: int| 0 <= k < events.len() && (#[trigger] events[k]).port@ == devices[i].port@)
                || (exists|j: int| 0 <= j < i && (#[trigger] devices[j]).port@ == devices[i].port@) {
                WatchEventKind::Reconnected
            } else {
                WatchEventKind::Connected
            }
        }),
    decreases devices.len(),
{
    let t = devices.drop_last();
    lemma_start_split(m, seen, events, devices, ids, now);
    lemma_start_split(m, seen, events, t, ids, now);
    if i < devices.len() - 1 {
        lemma_start_announcements(m, seen, events, t, ids, now, i);
        assert(t[i] == devices[i]);
        let p = devices[i].port@;
        if exists|j: int| 0 <= j < i && (#[trigger] devices[j]).port@ == p {
            let j = choose|j: int| 0 <= j < i && (#[trigger] devices[j]).port@ == p;
            assert(t[j] == devices[j]);
        }
        if exists|j: int| 0 <= j < i && (#[trigger] t[j]).port@ == p {
            let j = choose|j: int| 0 <= j < i && (#[trigger] t[j]).port@ == p;
            assert(t[j] == devices[j]);
        }
        assert(start_steps(m, seen, events, devices, ids, now).3[i] == start_steps(m, seen, events, t, ids, now).3[i]);
    } else {
        let ev1 = events + start_events(t, ids, now);
        let p = devices[i].port@;
        lemma_start_events_ports(t, ids, now);
        if seen_in_history(ev1, p) {
            let k = choose|k: int| 0 <= k < ev1.len() && (#[trigger] ev1[k]).port@ == p;
            if k < events.len() {
                assert(ev1[k] == events[k]);
            } else {
                assert(ev1[k] == start_events(t, ids, now)[k - events.len()]);
                assert(t[k - events.len()] == devices[k - events.len()]);
                assert(devices[k - events.len()].port@ == p);
            }
        }
        if exists|k: int| 0 <= k < events.len() && (#[trigger] events[k]).port@ == p {
            let k = choose|k: int| 0 <= k < events.len() && (#[trigger] events[k]).port@ == p;
            assert(ev1[k] == events[k]);
        }
        if exists|j: int| 0 <= j < i && (#[trigger] devices[j]).port@ == p {
            let j = choose|j: int| 0 <= j < i && (#[trigger] devices[j]).port@ == p;
            assert(t[j] == devices[j]);
            assert(ev1[events.len() + j] == start_events(t, ids, now)[j]);
        }
    }
}

} // verus!
