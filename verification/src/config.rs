//! Saved settings (port nicknames) and the session record: which ports are
//! connected and since when, reconciled with the ports found now.

use vstd::prelude::*;

use crate::detection::DeviceInfo;
use crate::history::{lemma_events_push_wf, retained, History, HistoryEvent, EventType};
use crate::port_map::{PortMap, lemma_map_of_dom};
use crate::timestamp::{seconds_between, spec_seconds_between, Timestamp};

verus! {

// ─── Persistent config (nicknames, settings) ─────────────────────────────────

/// Saved settings.
#[derive(Clone, Debug)]
pub struct Config {
    /// port → friendly name, e.g. "COM3" → "main-board"
    pub nicknames: PortMap<String>,
    /// Maximum days of history to retain (default: 30)
    pub history_max_days: Option<u32>,
    /// Maximum total history entries to keep
    pub history_max_entries: Option<usize>,
}

impl Config {
    /// No nicknames and no limits.
    pub fn new() -> (r: Config)
        ensures
            r.nicknames.wf(),
            r.nicknames@ == Map::<Seq<char>, String>::empty(),
            r.history_max_days is None,
            r.history_max_entries is None,
    {
        Config { nicknames: PortMap::new(), history_max_days: None, history_max_entries: None }
    }
}

// ─── Session state ───────────────────────────────────────────────────────────

/// A port that is connected, as the session records it.
#[derive(Clone, Debug)]
pub struct SessionDevice {
    pub connected_at: Timestamp,
    pub board_name: String,
    pub vid: Option<u16>,
    pub pid: Option<u16>,
    pub session_id: String,
}

/// port → session entry for every device currently known to be connected.
#[derive(Clone, Debug)]
pub struct SessionState {
    pub connected: PortMap<SessionDevice>,
}

/// Every entry's instant is representable.
pub open spec fn session_entries_wf(entries: Seq<(String, SessionDevice)>) -> bool {
    forall|i: int| 0 <= i < entries.len() ==> (#[trigger] entries[i]).1.connected_at.wf()
}

impl SessionState {
    /// No port occurs twice and every instant is representable.
    pub open spec fn wf(&self) -> bool {
        &&& self.connected.wf()
        &&& session_entries_wf(self.connected.entries@)
    }

    /// No port connected.
    pub fn new() -> (r: SessionState)
        ensures
            r.wf(),
            r.connected.entries@.len() == 0,
    {
        SessionState { connected: PortMap::new() }
    }
}

/// One of the devices is on the port.
pub open spec fn port_listed(devices: Seq<DeviceInfo>, port: Seq<char>) -> bool {
    exists|i: int| 0 <= i < devices.len() && (#[trigger] devices[i]).port@ == port
}

/// The session entries whose ports are still listed, in their order.
pub open spec fn kept_entries<V>(entries: Seq<(String, V)>, devices: Seq<DeviceInfo>) -> Seq<(String, V)>
    decreases entries.len(),
{
    if entries.len() == 0 {
        Seq::empty()
    } else {
        let rest = kept_entries(entries.drop_last(), devices);
        if port_listed(devices, entries.last().0@) {
            rest.push(entries.last())
        } else {
            rest
        }
    }
}

/// The disconnection recorded for a session entry whose port went away.
pub open spec fn disconnection(entry: (String, SessionDevice), now: Timestamp) -> HistoryEvent {
    HistoryEvent {
        port: entry.0,
        board_name: entry.1.board_name,
        vid: entry.1.vid,
        pid: entry.1.pid,
        event_type: EventType::Disconnected,
        timestamp: now,
        session_id: entry.1.session_id,
        uptime_secs: Some(spec_seconds_between(now, entry.1.connected_at) as i64),
    }
}

/// The disconnections of the session entries whose ports are no longer
/// listed, in the order of the entries.
pub open spec fn gone_events(entries: Seq<(String, SessionDevice)>, devices: Seq<DeviceInfo>, now: Timestamp) -> Seq<HistoryEvent>
    decreases entries.len(),
{
    if entries.len() == 0 {
        Seq::empty()
    } else {
        let rest = gone_events(entries.drop_last(), devices, now);
        if port_listed(devices, entries.last().0@) {
            rest
        } else {
            rest.push(disconnection(entries.last(), now))
        }
    }
}

/// An entry is for the port.
pub open spec fn has_port<V>(entries: Seq<(String, V)>, port: Seq<char>) -> bool {
    exists|i: int| 0 <= i < entries.len() && (#[trigger] entries[i]).0@ == port
}

/// The session entries and the connection events after the devices are taken
/// in turn, each one whose port has no entry yet gaining one, with the
/// session ID of the same index.
pub open spec fn arrivals(
    entries: Seq<(String, SessionDevice)>,
    devices: Seq<DeviceInfo>,
    ids: Seq<String>,
    now: Timestamp,
) -> (Seq<(String, SessionDevice)>, Seq<HistoryEvent>)
    decreases devices.len(),
{
    if devices.len() == 0 {
        (entries, Seq::empty())
    } else {
        let (e, ev) = arrivals(entries, devices.drop_last(), ids, now);
        let d = devices.last();
        let id = ids[devices.len() - 1];
        if has_port(e, d.port@) {
            (e, ev)
        } else {
            (
                e.push((d.port, SessionDevice {
                    connected_at: now,
                    board_name: d.board_name,
                    vid: d.vid,
                    pid: d.pid,
                    session_id: id,
                })),
                ev.push(HistoryEvent {
                    port: d.port,
                    board_name: d.board_name,
                    vid: d.vid,
                    pid: d.pid,
                    event_type: EventType::Connected,
                    timestamp: now,
                    session_id: id,
                    uptime_secs: None,
                }),
            )
        }
    }
}

proof fn lemma_kept_wf(entries: Seq<(String, SessionDevice)>, devices: Seq<DeviceInfo>)
    requires
        session_entries_wf(entries),
    ensures
        session_entries_wf(kept_entries(entries, devices)),
        forall|i: int| 0 <= i < kept_entries(entries, devices).len() ==>
            port_listed(devices, (#[trigger] kept_entries(entries, devices)[i]).0@),
    decreases entries.len(),
{
    if entries.len() > 0 {
        let t = entries.drop_last();
        assert forall|i: int| 0 <= i < t.len() implies (#[trigger] t[i]).1.connected_at.wf() by {
            assert(t[i] == entries[i]);
        }
        lemma_kept_wf(t, devices);
        let k = kept_entries(entries, devices);
        let kt = kept_entries(t, devices);
        assert(entries[entries.len() - 1].1.connected_at.wf());
        if port_listed(devices, entries.last().0@) {
            assert forall|i: int| 0 <= i < k.len() implies port_listed(devices, (#[trigger] k[i]).0@) by {
                if i < kt.len() {
                    assert(k[i] == kt[i]);
                }
            }
        }
    }
}

/// Records a disconnection for every session entry whose port is no longer
/// listed, and drops those entries; the kept entries keep their order.
fn drop_gone(session: &mut SessionState, history: &mut History, devices: &Vec<DeviceInfo>, now: Timestamp)
    requires
        old(session).wf(),
        old(history).wf(),
        now.wf(),
    ensures
        final(session).wf(),
        final(history).wf(),
        final(session).connected.entries@ == kept_entries(old(session).connected.entries@, devices@),
        final(history).events@ == old(history).events@ + gone_events(old(session).connected.entries@, devices@, now),
{
    let ghost all = session.connected.entries@;
    let ghost hist0 = history.events@;
    let mut rest: Vec<(String, SessionDevice)> = Vec::new();
    std::mem::swap(&mut rest, &mut session.connected.entries);
    let mut kept: Vec<(String, SessionDevice)> = Vec::new();
    let n = rest.len();
    let mut i: usize = 0;
    assert(all.take(0) =~= Seq::<(String, SessionDevice)>::empty());
    assert(hist0 + Seq::<HistoryEvent>::empty() =~= hist0);
    while i < n
        invariant
            n == all.len(),
            session_entries_wf(all),
            crate::port_map::keys_unique(all),
            now.wf(),
            history.wf(),
            i <= n,
            rest@ == all.skip(i as int),
            kept@ == kept_entries(all.take(i as int), devices@),
            history.events@ == hist0 + gone_events(all.take(i as int), devices@, now),
        decreases n - i,
    {
        let e = rest.remove(0);
        assert(e == all[i as int]);
        assert(all.take(i + 1).drop_last() =~= all.take(i as int));
        assert(all.take(i + 1).last() == e);
        assert(rest@ =~= all.skip(i + 1));
        let listed = port_is_listed(devices, e.0.as_str());
        if listed {
            kept.push(e);
        } else {
            let ghost gone_before = gone_events(all.take(i as int), devices@, now);
            let ev = disconnection_event(e, now);
            proof {
                lemma_events_push_wf(history.events@, ev);
            }
            history.add_event(ev);
            assert(hist0 + gone_before.push(ev) =~= (hist0 + gone_before).push(ev));
        }
        i = i + 1;
    }
    assert(all.take(n as int) =~= all);
    proof {
        lemma_kept_wf(all, devices@);
        lemma_kept_unique(all, devices@);
    }
    session.connected.entries = kept;
}

/// The kept entries hold no port twice, and only ports that the entries held.
pub proof fn lemma_kept_unique<V>(entries: Seq<(String, V)>, devices: Seq<DeviceInfo>)
    requires
        crate::port_map::keys_unique(entries),
    ensures
        crate::port_map::keys_unique(kept_entries(entries, devices)),
        forall|i: int| 0 <= i < kept_entries(entries, devices).len() ==>
            has_port(entries, (#[trigger] kept_entries(entries, devices)[i]).0@),
    decreases entries.len(),
{
    if entries.len() > 0 {
        let t = entries.drop_last();
        assert(crate::port_map::keys_unique(t)) by {
            assert forall|a: int, b: int| 0 <= a < t.len() && 0 <= b < t.len() && a != b implies
                (#[trigger] t[a]).0@ != (#[trigger] t[b]).0@ by {
                assert(t[a] == entries[a]);
                assert(t[b] == entries[b]);
            }
        }
        lemma_kept_unique(t, devices);
        let k = kept_entries(entries, devices);
        let kt = kept_entries(t, devices);
        assert forall|i: int| 0 <= i < kt.len() implies has_port(entries, (#[trigger] kt[i]).0@) by {
            let j = choose|j: int| 0 <= j < t.len() && (#[trigger] t[j]).0@ == kt[i].0@;
            assert(entries[j] == t[j]);
        }
        if port_listed(devices, entries.last().0@) {
            let last = entries.last();
            assert forall|i: int| 0 <= i < kt.len() implies (#[trigger] kt[i]).0@ != last.0@ by {
                let j = choose|j: int| 0 <= j < t.len() && (#[trigger] t[j]).0@ == kt[i].0@;
                assert(entries[j] == t[j]);
                assert(entries[entries.len() - 1] == last);
            }
            assert forall|a: int, b: int| 0 <= a < k.len() && 0 <= b < k.len() && a != b implies
                (#[trigger] k[a]).0@ != (#[trigger] k[b]).0@ by {
                if a < kt.len() {
                    assert(k[a] == kt[a]);
                }
                if b < kt.len() {
                    assert(k[b] == kt[b]);
                }
            }
            assert forall|i: int| 0 <= i < k.len() implies has_port(entries, (#[trigger] k[i]).0@) by {
                if i < kt.len() {
                    assert(k[i] == kt[i]);
                } else {
                    assert(entries[entries.len() - 1] == last);
                }
            }
        }
    }
}

fn disconnection_event(e: (String, SessionDevice), now: Timestamp) -> (r: HistoryEvent)
    requires
        e.1.connected_at.wf(),
        now.wf(),
    ensures
        r == disconnection(e, now),
{
    let uptime = seconds_between(now, e.1.connected_at);
    HistoryEvent {
        port: e.0,
        board_name: e.1.board_name,
        vid: e.1.vid,
        pid: e.1.pid,
        event_type: EventType::Disconnected,
        timestamp: now,
        session_id: e.1.session_id,
        uptime_secs: Some(uptime),
    }
}

/// Whether one of the devices is on `port`.
pub fn port_is_listed(devices: &Vec<DeviceInfo>, port: &str) -> (r: bool)
    ensures
        r == port_listed(devices@, port@),
{
    let mut i: usize = 0;
    while i < devices.len()
        invariant
            i <= devices@.len(),
            forall|k: int| 0 <= k < i ==> (#[trigger] devices@[k]).port@ != port@,
        decreases devices.len() - i,
    {
        if crate::text::same_text(devices[i].port.as_str(), port) {
            assert(devices@[i as int].port@ == port@);
            return true;
        }
        i = i + 1;
    }
    false
}

/// Brings the session up to date with the devices found now, and records the
/// changes in the history: every session entry whose port is no longer listed
/// is dropped with a disconnection (its uptime up to `now`), in the order of
/// the entries; then every device whose port has no entry gains one, connected
/// at `now` with the session ID of the same index in `ids`, and a connection
/// event, in the order of the devices. The history is then kept within its
/// limits (see `retained`).
pub fn reconcile_session(
    session: &mut SessionState,
    history: &mut History,
    devices: &Vec<DeviceInfo>,
    now: Timestamp,
    ids: &Vec<String>,
    max_days: Option<u32>,
    max_entries: Option<usize>,
)
    requires
        old(session).wf(),
        old(history).wf(),
        now.wf(),
        ids@.len() >= devices@.len(),
    ensures
        final(session).wf(),
        final(history).wf(),
        ({
            let kept = kept_entries(old(session).connected.entries@, devices@);
            let (entries, arrived) = arrivals(kept, devices@, ids@, now);
            &&& final(session).connected.entries@ == entries
            &&& final(history).events@ == retained(old(history).events@
                + gone_events(old(session).connected.entries@, devices@, now) + arrived,
                max_days, max_entries, now)
        }),
{
    drop_gone(session, history, devices, now);
    let ghost kept = session.connected.entries@;
    let ghost hist1 = history.events@;
    let mut i: usize = 0;
    assert(devices@.take(0) =~= Seq::<DeviceInfo>::empty());
    assert(hist1 + Seq::<HistoryEvent>::empty() =~= hist1);
    while i < devices.len()
        invariant
            session.wf(),
            now.wf(),
            ids@.len() >= devices@.len(),
            history.wf(),
            i <= devices@.len(),
            session.connected.entries@ == arrivals(kept, devices@.take(i as int), ids@, now).0,
            history.events@ == hist1 + arrivals(kept, devices@.take(i as int), ids@, now).1,
        decreases devices.len() - i,
    {
        let d = &devices[i];
        let ghost pre = devices@.take(i as int);
        assert(devices@.take(i + 1).drop_last() =~= pre);
        assert(devices@.take(i + 1).last() == *d);
        proof {
            lemma_map_of_dom(session.connected.entries@, d.port@);
        }
        if !session.connected.contains_key(d.port.as_str()) {
            let id = ids[i].clone();
            let ghost entries_before = session.connected.entries@;
            let entry = SessionDevice {
                connected_at: now,
                board_name: d.board_name.clone(),
                vid: d.vid,
                pid: d.pid,
                session_id: id.clone(),
            };
            session.connected.insert(d.port.clone(), entry);
            assert(session_entries_wf(session.connected.entries@)) by {
                assert forall|k: int| 0 <= k < session.connected.entries@.len() implies
                    (#[trigger] session.connected.entries@[k]).1.connected_at.wf() by {
                    if k < entries_before.len() {
                        assert(session.connected.entries@[k] == entries_before[k]);
                    }
                }
            }
            let ghost ev_before = history.events@;
            let ev = HistoryEvent {
                port: d.port.clone(),
                board_name: d.board_name.clone(),
                vid: d.vid,
                pid: d.pid,
                event_type: EventType::Connected,
                timestamp: now,
                session_id: id,
                uptime_secs: None,
            };
            proof {
                lemma_events_push_wf(history.events@, ev);
            }
            history.add_event(ev);
            assert(hist1 + arrivals(kept, pre, ids@, now).1.push(ev)
                =~= (hist1 + arrivals(kept, pre, ids@, now).1).push(ev));
        }
        i = i + 1;
    }
    assert(devices@.take(devices@.len() as int) =~= devices@);
    assert(old(history).events@ + gone_events(old(session).connected.entries@, devices@, now)
        + arrivals(kept, devices@, ids@, now).1
        =~= hist1 + arrivals(kept, devices@, ids@, now).1);
    history.enforce_limits(max_days, max_entries, now);
}


/// Only a disconnection carries an uptime.
pub open spec fn uptime_only_on_disconnect(e: HistoryEvent) -> bool {
    (e.event_type == EventType::Disconnected) == (e.uptime_secs is Some)
}

/// The kept entries are those of the entries whose ports are listed.
pub proof fn lemma_kept_listed<V>(entries: Seq<(String, V)>, devices: Seq<DeviceInfo>)
    ensures
        forall|i: int| 0 <= i < kept_entries(entries, devices).len() ==>
            port_listed(devices, (#[trigger] kept_entries(entries, devices)[i]).0@),
        forall|i: int| 0 <= i < entries.len() && port_listed(devices, (#[trigger] entries[i]).0@) ==>
            has_port(kept_entries(entries, devices), entries[i].0@),
    decreases entries.len(),
{
    if entries.len() > 0 {
        let t = entries.drop_last();
        lemma_kept_listed(t, devices);
        let k = kept_entries(entries, devices);
        let kt = kept_entries(t, devices);
        assert forall|i: int| 0 <= i < k.len() implies port_listed(devices, (#[trigger] k[i]).0@) by {
            if i < kt.len() {
                assert(k[i] == kt[i]);
            }
        }
        assert forall|i: int| 0 <= i < entries.len() && port_listed(devices, (#[trigger] entries[i]).0@) implies
            has_port(k, entries[i].0@) by {
            if i < t.len() {
                assert(entries[i] == t[i]);
                let j = choose|j: int| 0 <= j < kt.len() && (#[trigger] kt[j]).0@ == t[i].0@;
                if port_listed(devices, entries.last().0@) {
                    assert(k[j] == kt[j]);
                }
            } else {
                assert(k[k.len() - 1] == entries.last());
            }
        }
    }
}

proof fn lemma_arrivals_ports(entries: Seq<(String, SessionDevice)>, devices: Seq<DeviceInfo>, ids: Seq<String>, now: Timestamp, p: Seq<char>)
    requires
        ids.len() >= devices.len(),
    ensures
        has_port(arrivals(entries, devices, ids, now).0, p) <==> (has_port(entries, p) || port_listed(devices, p)),
        forall|i: int| 0 <= i < arrivals(entries, devices, ids, now).1.len() ==>
            uptime_only_on_disconnect(#[trigger] arrivals(entries, devices, ids, now).1[i]),
    decreases devices.len(),
{
    if devices.len() > 0 {
        let t = devices.drop_last();
        lemma_arrivals_ports(entries, t, ids, now, p);
        let (e1, ev1) = arrivals(entries, t, ids, now);
        let d = devices.last();
        let (e2, ev2) = arrivals(entries, devices, ids, now);
        if port_listed(devices, p) && !port_listed(t, p) {
            let i = choose|i: int| 0 <= i < devices.len() && (#[trigger] devices[i]).port@ == p;
            if i < t.len() {
                assert(t[i] == devices[i]);
            }
            assert(d.port@ == p);
            if !has_port(e1, d.port@) {
                assert(e2[e2.len() - 1].0@ == p);
            }
        }
        if port_listed(t, p) {
            let i = choose|i: int| 0 <= i < t.len() && (#[trigger] t[i]).port@ == p;
            assert(devices[i] == t[i]);
        }
        if has_port(e2, p) && !has_port(e1, p) {
            assert(d.port@ == p) by {
                let i = choose|i: int| 0 <= i < e2.len() && (#[trigger] e2[i]).0@ == p;
                if i < e1.len() {
                    assert(e2[i] == e1[i]);
                }
            }
            assert(devices[devices.len() - 1].port@ == p);
        }
        if has_port(e1, p) {
            let i = choose|i: int| 0 <= i < e1.len() && (#[trigger] e1[i]).0@ == p;
            if !has_port(e1, d.port@) {
                assert(e2[i] == e1[i]);
            }
        }
        assert forall|i: int| 0 <= i < ev2.len() implies uptime_only_on_disconnect(#[trigger] ev2[i]) by {
            if i < ev1.len() {
                if !has_port(e1, d.port@) {
                    assert(ev2[i] == ev1[i]);
                }
            }
        }
    }
}

proof fn lemma_gone_events_uptime(entries: Seq<(String, SessionDevice)>, devices: Seq<DeviceInfo>, now: Timestamp)
    ensures
        forall|i: int| 0 <= i < gone_events(entries, devices, now).len() ==>
            uptime_only_on_disconnect(#[trigger] gone_events(entries, devices, now)[i]),
    decreases entries.len(),
{
    if entries.len() > 0 {
        lemma_gone_events_uptime(entries.drop_last(), devices, now);
        let g = gone_events(entries, devices, now);
        let gt = gone_events(entries.drop_last(), devices, now);
        assert forall|i: int| 0 <= i < g.len() implies uptime_only_on_disconnect(#[trigger] g[i]) by {
            if i < gt.len() {
                assert(g[i] == gt[i]);
            }
        }
    }
}

/// After the session is brought up to date, it holds an entry for exactly
/// the ports of the devices found now.
pub proof fn lemma_session_tracks_devices(
    entries: Seq<(String, SessionDevice)>,
    devices: Seq<DeviceInfo>,
    ids: Seq<String>,
    now: Timestamp,
    p: Seq<char>,
)
    requires
        ids.len() >= devices.len(),
    ensures
        has_port(arrivals(kept_entries(entries, devices), devices, ids, now).0, p) <==> port_listed(devices, p),
{
    lemma_kept_listed(entries, devices);
    lemma_arrivals_ports(kept_entries(entries, devices), devices, ids, now, p);
    let k = kept_entries(entries, devices);
    if has_port(k, p) {
        let i = choose|i: int| 0 <= i < k.len() && (#[trigger] k[i]).0@ == p;
    }
}

/// Every event that bringing the session up to date records carries an
/// uptime exactly when it is a disconnection.
pub proof fn lemma_session_events_uptime(
    entries: Seq<(String, SessionDevice)>,
    devices: Seq<DeviceInfo>,
    ids: Seq<String>,
    now: Timestamp,
)
    requires
        ids.len() >= devices.len(),
    ensures
        ({
            let recorded = gone_events(entries, devices, now)
                + arrivals(kept_entries(entries, devices), devices, ids, now).1;
            forall|i: int| 0 <= i < recorded.len() ==> uptime_only_on_disconnect(#[trigger] recorded[i])
        }),
{
    lemma_gone_events_uptime(entries, devices, now);
    lemma_arrivals_ports(kept_entries(entries, devices), devices, ids, now, Seq::empty());
    let g = gone_events(entries, devices, now);
    let a = arrivals(kept_entries(entries, devices), devices, ids, now).1;
    assert forall|i: int| 0 <= i < (g + a).len() implies uptime_only_on_disconnect(#[trigger] (g + a)[i]) by {
        if i < g.len() {
            assert((g + a)[i] == g[i]);
        } else {
            assert((g + a)[i] == a[i - g.len()]);
        }
    }
}

proof fn lemma_kept_all<V>(entries: Seq<(String, V)>, devices: Seq<DeviceInfo>)
    requires
        forall|i: int| 0 <= i < entries.len() ==> port_listed(devices, (#[trigger] entries[i]).0@),
    ensures
        kept_entries(entries, devices) == entries,
    decreases entries.len(),
{
    if entries.len() > 0 {
        let t = entries.drop_last();
        assert forall|i: int| 0 <= i < t.len() implies port_listed(devices, (#[trigger] t[i]).0@) by {
            assert(t[i] == entries[i]);
        }
        lemma_kept_all(t, devices);
        assert(port_listed(devices, entries[entries.len() - 1].0@));
        assert(t.push(entries.last()) =~= entries);
    }
}

proof fn lemma_gone_none(entries: Seq<(String, SessionDevice)>, devices: Seq<DeviceInfo>, now: Timestamp)
    requires
        forall|i: int| 0 <= i < entries.len() ==> port_listed(devices, (#[trigger] entries[i]).0@),
    ensures
        gone_events(entries, devices, now) == Seq::<HistoryEvent>::empty(),
    decreases entries.len(),
{
    if entries.len() > 0 {
        let t = entries.drop_last();
        assert forall|i: int| 0 <= i < t.len() implies port_listed(devices, (#[trigger] t[i]).0@) by {
            assert(t[i] == entries[i]);
        }
        lemma_gone_none(t, devices, now);
        assert(port_listed(devices, entries[entries.len() - 1].0@));
    }
}

proof fn lemma_arrivals_none(entries: Seq<(String, SessionDevice)>, devices: Seq<DeviceInfo>, ids: Seq<String>, now: Timestamp)
    requires
        forall|i: int| 0 <= i < devices.len() ==> has_port(entries, (#[trigger] devices[i]).port@),
    ensures
        arrivals(entries, devices, ids, now) == (entries, Seq::<HistoryEvent>::empty()),
    decreases devices.len(),
{
    if devices.len() > 0 {
        let t = devices.drop_last();
        assert forall|i: int| 0 <= i < t.len() implies has_port(entries, (#[trigger] t[i]).port@) by {
            assert(t[i] == devices[i]);
        }
        lemma_arrivals_none(entries, t, ids, now);
        assert(has_port(entries, devices[devices.len() - 1].port@));
    }
}

/// Bringing the session up to date a second time with the same devices
/// changes nothing and records nothing.
pub proof fn lemma_reconcile_settles(
    entries: Seq<(String, SessionDevice)>,
    devices: Seq<DeviceInfo>,
    ids1: Seq<String>,
    ids2: Seq<String>,
    now1: Timestamp,
    now2: Timestamp,
)
    requires
        ids1.len() >= devices.len(),
        ids2.len() >= devices.len(),
    ensures
        ({
            let settled = arrivals(kept_entries(entries, devices), devices, ids1, now1).0;
            &&& kept_entries(settled, devices) == settled
            &&& gone_events(settled, devices, now2) == Seq::<HistoryEvent>::empty()
            &&& arrivals(kept_entries(settled, devices), devices, ids2, now2) == (settled, Seq::<HistoryEvent>::empty())
        }),
{
    let settled = arrivals(kept_entries(entries, devices), devices, ids1, now1).0;
    assert forall|i: int| 0 <= i < settled.len() implies port_listed(devices, (#[trigger] settled[i]).0@) by {
        lemma_session_tracks_devices(entries, devices, ids1, now1, settled[i].0@);
    }
    assert forall|i: int| 0 <= i < devices.len() implies has_port(settled, (#[trigger] devices[i]).port@) by {
        lemma_session_tracks_devices(entries, devices, ids1, now1, devices[i].port@);
    }
    lemma_kept_all(settled, devices);
    lemma_gone_none(settled, devices, now2);
    lemma_arrivals_none(settled, devices, ids2, now2);
}

/// Whether the character is a lower-case hexadecimal digit.
pub open spec fn is_lower_hex(c: char) -> bool {
    ('0' <= c && c <= '9') || ('a' <= c && c <= 'f')
}

/// The hyphenated lower-case text of a version 4 UUID of the RFC 4122
/// variant: 36 characters, hyphens at 8, 13, 18 and 23, lower-case hex digits
/// elsewhere, the version digit `4` at 14 and a variant digit among `8`, `9`,
/// `a`, `b` at 19.
pub open spec fn is_v4_uuid_text(t: Seq<char>) -> bool {
    &&& t.len() == 36
    &&& t[8] == '-' && t[13] == '-' && t[18] == '-' && t[23] == '-'
    &&& forall|k: int| 0 <= k < 36 && k != 8 && k != 13 && k != 18 && k != 23
        ==> is_lower_hex(#[trigger] t[k])
    &&& t[14] == '4'
    &&& (t[19] == '8' || t[19] == '9' || t[19] == 'a' || t[19] == 'b')
}

/// A fresh random session ID: `uuid::Uuid::new_v4()` (random bits with the
/// version set to 4 and the variant to RFC 4122) in its hyphenated lower-case
/// form (`to_string`). Which ID comes back is chance; its layout is stated.
#[verifier::external_body]
fn new_session_id() -> (r: String)
    ensures
        is_v4_uuid_text(r@),
{
    uuid::Uuid::new_v4().to_string()
}

/// `n` fresh random session IDs, each the text of a version 4 UUID.
pub fn fresh_session_ids(n: usize) -> (r: Vec<String>)
    ensures
        r@.len() == n,
        forall|i: int| 0 <= i < n ==> is_v4_uuid_text(#[trigger] r@[i]@),
{
    let mut ids: Vec<String> = Vec::new();
    let mut i: usize = 0;
    while i < n
        invariant
            i <= n,
            ids@.len() == i,
            forall|k: int| 0 <= k < i ==> is_v4_uuid_text(#[trigger] ids@[k]@),
        decreases n - i,
    {
        ids.push(new_session_id());
        i = i + 1;
    }
    ids
}

/// Brings the session up to date with the devices found now, as
/// `reconcile_session` does, with a fresh random session ID for each device
/// that arrived, and keeps the history within its limits.
pub fn refresh_session(
    session: &mut SessionState,
    history: &mut History,
    devices: &Vec<DeviceInfo>,
    now: Timestamp,
    max_days: Option<u32>,
    max_entries: Option<usize>,
)
    requires
        old(session).wf(),
        old(history).wf(),
        now.wf(),
    ensures
        final(session).wf(),
        final(history).wf(),
        exists|ids: Seq<String>|
            #![trigger arrivals(kept_entries(old(session).connected.entries@, devices@), devices@, ids, now)]
            ids.len() == devices@.len()
            && (forall|i: int| 0 <= i < ids.len() ==> is_v4_uuid_text(#[trigger] ids[i]@))
            && final(session).connected.entries@
                == arrivals(kept_entries(old(session).connected.entries@, devices@), devices@, ids, now).0
            && final(history).events@ == retained(old(history).events@
                + gone_events(old(session).connected.entries@, devices@, now)
                + arrivals(kept_entries(old(session).connected.entries@, devices@), devices@, ids, now).1,
                max_days, max_entries, now),
{
    let ids = fresh_session_ids(devices.len());
    reconcile_session(session, history, devices, now, &ids, max_days, max_entries);
    assert(ids@.len() == devices@.len());
}

} // verus!
