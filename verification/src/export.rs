//! Export records of the device list, and their CSV form.

use vstd::prelude::*;
use vstd::string::*;
use vstd::utf8::{decode_utf8, valid_utf8};

use crate::config::SessionDevice;
use crate::detection::{opt_view, spec_vid_pid, DeviceInfo};
use crate::history::{format_local, format_uptime, offset_ok, spec_uptime, wall_clock_text};
use crate::port_map::PortMap;
use crate::text::{decimal_int, hex4, i64_to_decimal, u16_to_hex4};
use crate::timestamp::{seconds_between, spec_seconds_between, Timestamp};

verus! {

// ─── Export record ───────────────────────────────────────────────────────────

/// One device as it is exported.
#[derive(Clone, Debug)]
pub struct ExportDevice {
    pub port: String,
    pub board_name: String,
    pub nickname: Option<String>,
    pub vid: Option<String>,
    pub pid: Option<String>,
    pub vid_pid: String,
    pub manufacturer: String,
    pub serial_number: Option<String>,
    pub is_arduino: bool,
    pub connected_at: Option<String>,
    pub uptime: Option<String>,
    pub uptime_seconds: Option<i64>,
}

/// An ID in four upper-case hex digits, where it is known.
pub open spec fn spec_hex_id(id: Option<u16>) -> Option<Seq<char>> {
    match id {
        Some(v) => Some(hex4(v)),
        None => None,
    }
}

/// The record of a device with the given nickname and, where the export
/// includes timing, the text of its connection instant and its uptime.
pub open spec fn record_of(
    r: ExportDevice,
    d: DeviceInfo,
    nickname: Option<Seq<char>>,
    timing: Option<(Seq<char>, i64)>,
) -> bool {
    &&& r.port@ == d.port@
    &&& r.board_name@ == d.board_name@
    &&& opt_view(r.nickname) == nickname
    &&& opt_view(r.vid) == spec_hex_id(d.vid)
    &&& opt_view(r.pid) == spec_hex_id(d.pid)
    &&& r.vid_pid@ == spec_vid_pid(d.vid, d.pid)
    &&& r.manufacturer@ == d.manufacturer@
    &&& opt_view(r.serial_number) == opt_view(d.serial_number)
    &&& r.is_arduino == d.is_arduino
    &&& match timing {
        Some((at, secs)) => {
            &&& opt_view(r.connected_at) == Some(at)
            &&& opt_view(r.uptime) == Some(spec_uptime(secs as int))
            &&& r.uptime_seconds == Some(secs)
        },
        None => {
            &&& r.connected_at is None
            &&& r.uptime is None
            &&& r.uptime_seconds is None
        },
    }
}

fn hex_id(id: Option<u16>) -> (r: Option<String>)
    ensures
        opt_view(r) == spec_hex_id(id),
{
    match id {
        Some(v) => Some(u16_to_hex4(v)),
        None => None,
    }
}

fn clone_opt(s: &Option<String>) -> (r: Option<String>)
    ensures
        opt_view(r) == opt_view(*s),
{
    match s {
        Some(x) => Some(x.clone()),
        None => None,
    }
}

/// The export record of a device, given its nickname and, where the export
/// includes timing, the text of its connection instant and its uptime in
/// seconds.
pub fn export_record(d: &DeviceInfo, nickname: Option<String>, timing: Option<(String, i64)>) -> (r: ExportDevice)
    ensures
        record_of(r, *d, opt_view(nickname), match timing {
            Some((at, secs)) => Some((at@, secs)),
            None => None,
        }),
{
    let (connected_at, uptime, uptime_seconds) = match timing {
        Some((at, secs)) => (Some(at), Some(format_uptime(secs)), Some(secs)),
        None => (None, None, None),
    };
    ExportDevice {
        port: d.port.clone(),
        board_name: d.board_name.clone(),
        nickname,
        vid: hex_id(d.vid),
        pid: hex_id(d.pid),
        vid_pid: d.vid_pid_str(),
        manufacturer: d.manufacturer.clone(),
        serial_number: clone_opt(&d.serial_number),
        is_arduino: d.is_arduino,
        connected_at,
        uptime,
        uptime_seconds,
    }
}

/// The nickname saved for a port, if any.
pub open spec fn nickname_of(nicknames: Map<Seq<char>, String>, port: Seq<char>) -> Option<Seq<char>> {
    if nicknames.dom().contains(port) {
        Some(nicknames[port]@)
    } else {
        None
    }
}

/// The export record of device `d` under the given nicknames and session:
/// its saved nickname, and, where `include_timestamps` holds and the session
/// records the port, the wall-clock time at `utc_offset` at which it
/// connected (see `wall_clock_text`), its uptime up to `now` and that uptime in
/// seconds.
pub open spec fn record_fits(
    r: ExportDevice,
    d: DeviceInfo,
    nicknames: Map<Seq<char>, String>,
    session: Map<Seq<char>, SessionDevice>,
    include_timestamps: bool,
    now: Timestamp,
    utc_offset: i32,
) -> bool {
    let nick = nickname_of(nicknames, d.port@);
    if include_timestamps && session.dom().contains(d.port@) {
        let at = session[d.port@].connected_at;
        let secs = spec_seconds_between(now, at) as i64;
        record_of(r, d, nick, Some((wall_clock_text(at.secs + utc_offset), secs)))
    } else {
        record_of(r, d, nick, None)
    }
}

/// Every session entry's instant is representable.
pub open spec fn session_map_wf(session: Map<Seq<char>, SessionDevice>) -> bool {
    forall|p: Seq<char>| #[trigger] session.dom().contains(p) ==> session[p].connected_at.wf()
}

/// The nickname saved for a port, if any.
pub fn lookup_nickname(nicknames: &PortMap<String>, port: &str) -> (r: Option<String>)
    requires
        nicknames.wf(),
    ensures
        opt_view(r) == nickname_of(nicknames@, port@),
{
    match nicknames.get(port) {
        Some(n) => Some(n.clone()),
        None => None,
    }
}

/// The export records of the devices, in their order: each with its saved
/// nickname, and, where `include_timestamps` holds and the session records
/// the port, the wall-clock time at `utc_offset` at which it connected, its
/// uptime up to `now` and that uptime in seconds (see `record_fits`).
pub fn build_records(
    devices: &Vec<DeviceInfo>,
    nicknames: &PortMap<String>,
    session: &PortMap<SessionDevice>,
    include_timestamps: bool,
    now: Timestamp,
    utc_offset: i32,
) -> (r: Vec<ExportDevice>)
    requires
        nicknames.wf(),
        session.wf(),
        session_map_wf(session@),
        now.wf(),
        offset_ok(utc_offset),
    ensures
        r@.len() == devices@.len(),
        forall|i: int| 0 <= i < devices@.len() ==>
            record_fits(#[trigger] r@[i], devices@[i], nicknames@, session@, include_timestamps, now, utc_offset),
{
    let mut out: Vec<ExportDevice> = Vec::new();
    let mut i: usize = 0;
    while i < devices.len()
        invariant
            nicknames.wf(),
            session.wf(),
            session_map_wf(session@),
            now.wf(),
            offset_ok(utc_offset),
            i <= devices@.len(),
            out@.len() == i,
            forall|k: int| 0 <= k < i ==>
                record_fits(#[trigger] out@[k], devices@[k], nicknames@, session@, include_timestamps, now, utc_offset),
        decreases devices.len() - i,
    {
        let d = &devices[i];
        let nickname = lookup_nickname(nicknames, d.port.as_str());
        let timing = if include_timestamps {
            match session.get(d.port.as_str()) {
                Some(sess) => {
                    let secs = seconds_between(now, sess.connected_at);
                    Some((format_local(sess.connected_at, utc_offset), secs))
                },
                None => None,
            }
        } else {
            None
        };
        let rec = export_record(d, nickname, timing);
        out.push(rec);
        proof {
            assert(out@[i as int] == rec);
            if include_timestamps && session@.dom().contains(d.port@) {
                let at = timing.unwrap().0@;
                let secs = spec_seconds_between(now, session@[d.port@].connected_at) as i64;
                assert(timing.unwrap().1 == secs);
                assert(record_of(out@[i as int], *d, nickname_of(nicknames@, d.port@), Some((at, secs))));
            }
            assert(record_fits(out@[i as int], devices@[i as int], nicknames@, session@, include_timestamps, now, utc_offset));
        }
        i = i + 1;
    }
    out
}

// ─── CSV ─────────────────────────────────────────────────────────────────────

/// The header row of the CSV export.
pub open spec fn csv_header(include_timestamps: bool) -> Seq<Seq<char>> {
    if include_timestamps {
        seq!["Port"@, "Board"@, "Nickname"@, "VID:PID"@, "Manufacturer"@, "Serial"@, "Is Arduino"@,
            "Connected At"@, "Uptime"@, "Uptime (s)"@]
    } else {
        seq!["Port"@, "Board"@, "Nickname"@, "VID:PID"@, "Manufacturer"@, "Serial"@, "Is Arduino"@]
    }
}

/// An optional text, empty where it is missing.
pub open spec fn or_empty(s: Option<Seq<char>>) -> Seq<char> {
    match s {
        Some(t) => t,
        None => Seq::empty(),
    }
}

/// The CSV row of a record.
pub open spec fn csv_row(r: ExportDevice, include_timestamps: bool) -> Seq<Seq<char>> {
    let base = seq![
        r.port@,
        r.board_name@,
        or_empty(opt_view(r.nickname)),
        r.vid_pid@,
        r.manufacturer@,
        or_empty(opt_view(r.serial_number)),
        if r.is_arduino { "true"@ } else { "false"@ },
    ];
    if include_timestamps {
        base + seq![
            or_empty(opt_view(r.connected_at)),
            or_empty(opt_view(r.uptime)),
            match r.uptime_seconds {
                Some(s) => decimal_int(s as int),
                None => Seq::empty(),
            },
        ]
    } else {
        base
    }
}

/// The views of the cells of a table.
pub open spec fn table_view(t: Seq<Vec<String>>) -> Seq<Seq<Seq<char>>> {
    t.map_values(|row: Vec<String>| row@.map_values(|c: String| c@))
}

/// The rows of the CSV export: the header, then one row per record.
pub open spec fn spec_csv_table(records: Seq<ExportDevice>, include_timestamps: bool) -> Seq<Seq<Seq<char>>> {
    seq![csv_header(include_timestamps)] + records.map_values(|r: ExportDevice| csv_row(r, include_timestamps))
}

fn or_empty_exec(s: &Option<String>) -> (r: String)
    ensures
        r@ == or_empty(opt_view(*s)),
{
    match s {
        Some(t) => t.clone(),
        None => String::new(),
    }
}

fn strings(v: Vec<&str>) -> (r: Vec<String>)
    ensures
        r@.map_values(|c: String| c@) == v@.map_values(|c: &str| c@),
{
    let mut out: Vec<String> = Vec::new();
    let mut i: usize = 0;
    while i < v.len()
        invariant
            i <= v@.len(),
            out@.len() == i,
            forall|k: int| 0 <= k < i ==> (#[trigger] out@[k])@ == v@[k]@,
        decreases v.len() - i,
    {
        out.push(String::from_str(v[i]));
        i = i + 1;
    }
    assert(out@.map_values(|c: String| c@) =~= v@.map_values(|c: &str| c@));
    out
}

fn csv_header_row(include_timestamps: bool) -> (r: Vec<String>)
    ensures
        r@.map_values(|c: String| c@) == csv_header(include_timestamps),
{
    if include_timestamps {
        let v = vec!["Port", "Board", "Nickname", "VID:PID", "Manufacturer", "Serial", "Is Arduino",
            "Connected At", "Uptime", "Uptime (s)"];
        let r = strings(v);
        assert(r@.map_values(|c: String| c@) =~= csv_header(include_timestamps));
        r
    } else {
        let v = vec!["Port", "Board", "Nickname", "VID:PID", "Manufacturer", "Serial", "Is Arduino"];
        let r = strings(v);
        assert(r@.map_values(|c: String| c@) =~= csv_header(include_timestamps));
        r
    }
}

fn csv_record_row(r: &ExportDevice, include_timestamps: bool) -> (out: Vec<String>)
    ensures
        out@.map_values(|c: String| c@) == csv_row(*r, include_timestamps),
{
    let mut row: Vec<String> = Vec::new();
    row.push(r.port.clone());
    row.push(r.board_name.clone());
    row.push(or_empty_exec(&r.nickname));
    row.push(r.vid_pid.clone());
    row.push(r.manufacturer.clone());
    row.push(or_empty_exec(&r.serial_number));
    row.push(if r.is_arduino { String::from_str("true") } else { String::from_str("false") });
    if include_timestamps {
        row.push(or_empty_exec(&r.connected_at));
        row.push(or_empty_exec(&r.uptime));
        row.push(match r.uptime_seconds {
            Some(s) => i64_to_decimal(s),
            None => String::new(),
        });
    }
    assert(row@.map_values(|c: String| c@) =~= csv_row(*r, include_timestamps));
    row
}

/// The rows of the CSV export: the header, then one row per record.
pub fn csv_table(records: &Vec<ExportDevice>, include_timestamps: bool) -> (r: Vec<Vec<String>>)
    ensures
        table_view(r@) == spec_csv_table(records@, include_timestamps),
{
    let mut out: Vec<Vec<String>> = Vec::new();
    out.push(csv_header_row(include_timestamps));
    let mut i: usize = 0;
    while i < records.len()
        invariant
            i <= records@.len(),
            out@.len() == i + 1,
            out@[0]@.map_values(|c: String| c@) == csv_header(include_timestamps),
            forall|k: int| 0 <= k < i ==>
                (#[trigger] out@[k + 1])@.map_values(|c: String| c@) == csv_row(records@[k], include_timestamps),
        decreases records.len() - i,
    {
        out.push(csv_record_row(&records[i], include_timestamps));
        i = i + 1;
    }
    assert forall|k: int| 0 <= k < out@.len() implies
        table_view(out@)[k] == spec_csv_table(records@, include_timestamps)[k] by {
        if k > 0 {
            assert(out@[(k - 1) + 1]@.map_values(|c: String| c@) == csv_row(records@[k - 1], include_timestamps));
        }
    }
    assert(table_view(out@) =~= spec_csv_table(records@, include_timestamps));
    out
}


// ─── CSV encoding (csv crate) ────────────────────────────────────────────────

/// A CSV writer with the default settings over an in-memory buffer
/// (`csv::Writer<Vec<u8>>`), held whole: Verus cannot take the declaration
/// of the writer type, whose parameter is bound by `std::io::Write`.
#[verifier::external_body]
pub struct CsvBuffer {
    writer: csv::Writer<Vec<u8>>,
}

/// The error of the csv crate (`csv::Error`), carried through opaque.
#[verifier::external_type_specification]
#[verifier::external_body]
pub struct ExCsvError(csv::Error);

/// The error of `String::from_utf8` (`std::string::FromUtf8Error`), carried through opaque.
#[verifier::external_type_specification]
#[verifier::external_body]
pub struct ExFromUtf8Error(std::string::FromUtf8Error);

/// The records written so far to a CSV writer, each as its fields: those of
/// the `write_record` calls that succeeded on the way to this writer value.
pub uninterp spec fn csv_records(w: CsvBuffer) -> Seq<Seq<Seq<char>>>;

/// Whether the csv writer's default settings quote the field: it holds a
/// comma, a double quote, a carriage return or a line feed.
pub open spec fn needs_quotes(f: Seq<char>) -> bool {
    exists|k: int| 0 <= k < f.len() && (f[k] == ',' || f[k] == '"' || f[k] == '\r' || f[k] == '\n')
}

/// The field with each double quote doubled.
pub open spec fn double_quotes(f: Seq<char>) -> Seq<char>
    decreases f.len(),
{
    if f.len() == 0 {
        Seq::empty()
    } else {
        double_quotes(f.drop_last()) + if f.last() == '"' { seq!['"', '"'] } else { seq![f.last()] }
    }
}

/// A field as the csv writer writes it: between double quotes, with its
/// double quotes doubled, where it needs quotes; as it is otherwise.
pub open spec fn csv_field(f: Seq<char>) -> Seq<char> {
    if needs_quotes(f) {
        seq!['"'] + double_quotes(f) + seq!['"']
    } else {
        f
    }
}

/// The fields of a record as written, separated by commas.
pub open spec fn joined_fields(r: Seq<Seq<char>>) -> Seq<char>
    decreases r.len(),
{
    if r.len() == 0 {
        Seq::empty()
    } else if r.len() == 1 {
        csv_field(r[0])
    } else {
        joined_fields(r.drop_last()) + seq![','] + csv_field(r.last())
    }
}

/// One record as a line: its fields separated by commas (two double quotes
/// where that leaves the line empty), then a line feed.
pub open spec fn csv_line(r: Seq<Seq<char>>) -> Seq<char> {
    let j = joined_fields(r);
    (if j.len() == 0 { seq!['"', '"'] } else { j }) + seq!['\n']
}

/// The CSV document of the records: their lines in order.
pub open spec fn csv_text(records: Seq<Seq<Seq<char>>>) -> Seq<char>
    decreases records.len(),
{
    if records.len() == 0 {
        Seq::empty()
    } else {
        csv_text(records.drop_last()) + csv_line(records.last())
    }
}

// ─── Reading CSV back ────────────────────────────────────────────────────────

/// Where a CSV reader stands within a field.
#[derive(Clone, Copy, Debug, PartialEq, Eq, Structural)]
pub enum ReadMode {
    /// Nothing of the field read yet.
    FieldStart,
    /// Inside a field without quotes.
    Unquoted,
    /// Inside a quoted field.
    Quoted,
    /// Just after a double quote inside a quoted field: a second one stands
    /// for a double quote, anything else ends the quotes.
    AfterQuote,
}

/// What a CSV reader has read so far: the finished records, the finished
/// fields of the record under way, the field under way, and where it stands.
pub struct CsvReading {
    pub records: Seq<Seq<Seq<char>>>,
    pub fields: Seq<Seq<char>>,
    pub field: Seq<char>,
    pub mode: ReadMode,
}

/// A reader that has read nothing.
pub open spec fn reading_start() -> CsvReading {
    CsvReading { records: Seq::empty(), fields: Seq::empty(), field: Seq::empty(), mode: ReadMode::FieldStart }
}

/// The field under way ends at a comma.
pub open spec fn end_field(st: CsvReading) -> CsvReading {
    CsvReading { records: st.records, fields: st.fields.push(st.field), field: Seq::empty(), mode: ReadMode::FieldStart }
}

/// The record under way ends at a line feed.
pub open spec fn end_record(st: CsvReading) -> CsvReading {
    CsvReading { records: st.records.push(st.fields.push(st.field)), fields: Seq::empty(), field: Seq::empty(), mode: ReadMode::FieldStart }
}

/// One character more, as a standard CSV reader takes it (comma-separated,
/// double quotes around a field, a doubled double quote inside them for one,
/// a line feed after each record).
pub open spec fn read_char(st: CsvReading, c: char) -> CsvReading {
    match st.mode {
        ReadMode::FieldStart => {
            if c == '"' {
                CsvReading { mode: ReadMode::Quoted, ..st }
            } else if c == ',' {
                end_field(st)
            } else if c == '\n' {
                end_record(st)
            } else {
                CsvReading { field: st.field.push(c), mode: ReadMode::Unquoted, ..st }
            }
        },
        ReadMode::Unquoted => {
            if c == ',' {
                end_field(st)
            } else if c == '\n' {
                end_record(st)
            } else {
                CsvReading { field: st.field.push(c), ..st }
            }
        },
        ReadMode::Quoted => {
            if c == '"' {
                CsvReading { mode: ReadMode::AfterQuote, ..st }
            } else {
                CsvReading { field: st.field.push(c), ..st }
            }
        },
        ReadMode::AfterQuote => {
            if c == '"' {
                CsvReading { field: st.field.push('"'), mode: ReadMode::Quoted, ..st }
            } else if c == ',' {
                end_field(st)
            } else if c == '\n' {
                end_record(st)
            } else {
                CsvReading { field: st.field.push(c), mode: ReadMode::Unquoted, ..st }
            }
        },
    }
}

/// The reader after the characters of `t`, from `st`.
pub open spec fn read_from(st: CsvReading, t: Seq<char>) -> CsvReading
    decreases t.len(),
{
    if t.len() == 0 {
        st
    } else {
        read_char(read_from(st, t.drop_last()), t.last())
    }
}

/// The records that a standard CSV reader reads from the text.
pub open spec fn read_csv(t: Seq<char>) -> Seq<Seq<Seq<char>>> {
    read_from(reading_start(), t).records
}

proof fn lemma_read_concat(st: CsvReading, a: Seq<char>, b: Seq<char>)
    ensures
        read_from(st, a + b) == read_from(read_from(st, a), b),
    decreases b.len(),
{
    if b.len() == 0 {
        assert(a + b =~= a);
    } else {
        lemma_read_concat(st, a, b.drop_last());
        assert((a + b).drop_last() =~= a + b.drop_last());
        assert((a + b).last() == b.last());
    }
}

proof fn lemma_read_one(st: CsvReading, c: char)
    ensures
        read_from(st, seq![c]) == read_char(st, c),
{
    assert(seq![c].drop_last() =~= Seq::<char>::empty());
    assert(read_from(st, Seq::<char>::empty()) == st);
    assert(seq![c].last() == c);
}

/// A field ready to be ended: the reader holds `field` and a comma or a line
/// feed next ends it.
pub open spec fn field_pending(st: CsvReading, records: Seq<Seq<Seq<char>>>, fields: Seq<Seq<char>>, field: Seq<char>) -> bool {
    &&& st.records == records
    &&& st.fields == fields
    &&& st.field == field
    &&& (st.mode == ReadMode::Unquoted || st.mode == ReadMode::AfterQuote
        || (st.mode == ReadMode::FieldStart && field.len() == 0))
}

proof fn lemma_read_plain(st: CsvReading, f: Seq<char>)
    requires
        st.mode == ReadMode::FieldStart,
        st.field.len() == 0,
        !needs_quotes(f),
        f.len() > 0 ==> f[0] != '"',
    ensures
        field_pending(read_from(st, f), st.records, st.fields, f),
    decreases f.len(),
{
    if f.len() > 0 {
        let g = f.drop_last();
        assert(!needs_quotes(g)) by {
            if needs_quotes(g) {
                let k = choose|k: int| 0 <= k < g.len() && (g[k] == ',' || g[k] == '"' || g[k] == '\r' || g[k] == '\n');
                assert(f[k] == g[k]);
            }
        }
        lemma_read_plain(st, g);
        let c = f.last();
        assert(f[f.len() - 1] == c);
        assert(c != ',' && c != '"' && c != '\r' && c != '\n') by {
            if c == ',' || c == '"' || c == '\r' || c == '\n' {
                assert(needs_quotes(f));
            }
        }
        assert(f.drop_last() == g);
        assert(g.len() > 0 ==> g[0] == f[0]);
        let prev = read_from(st, g);
        assert(read_from(st, f) == read_char(prev, c));
        if g.len() == 0 {
            assert(prev == st);
        }
        assert(g.push(f.last()) =~= f);
        if g.len() == 0 {
            assert(st.field.push(f.last()) =~= f);
        }
    } else {
        assert(st.field =~= f);
    }
}

proof fn lemma_read_quoted_body(st: CsvReading, g: Seq<char>)
    requires
        st.mode == ReadMode::Quoted,
    ensures
        read_from(st, double_quotes(g)) == (CsvReading { field: st.field + g, ..st }),
    decreases g.len(),
{
    if g.len() == 0 {
        assert(st.field + g =~= st.field);
    } else {
        let h = g.drop_last();
        lemma_read_quoted_body(st, h);
        let mid = CsvReading { field: st.field + h, ..st };
        let tail = if g.last() == '"' { seq!['"', '"'] } else { seq![g.last()] };
        lemma_read_concat(st, double_quotes(h), tail);
        if g.last() == '"' {
            lemma_read_concat(mid, seq!['"'], seq!['"']);
            assert(seq!['"'] + seq!['"'] =~= seq!['"', '"']);
            lemma_read_one(mid, '"');
            lemma_read_one(read_char(mid, '"'), '"');
        } else {
            lemma_read_one(mid, g.last());
        }
        assert((st.field + h).push(g.last()) =~= st.field + g);
    }
}

proof fn lemma_read_field(st: CsvReading, f: Seq<char>)
    requires
        st.mode == ReadMode::FieldStart,
        st.field.len() == 0,
    ensures
        field_pending(read_from(st, csv_field(f)), st.records, st.fields, f),
{
    if needs_quotes(f) {
        let q = seq!['"'];
        lemma_read_concat(st, q + double_quotes(f), q);
        lemma_read_concat(st, q, double_quotes(f));
        lemma_read_one(st, '"');
        let inside = read_char(st, '"');
        lemma_read_quoted_body(inside, f);
        lemma_read_one(read_from(inside, double_quotes(f)), '"');
        assert(st.field + f =~= f);
    } else {
        if f.len() > 0 {
            assert(f[0] != '"') by {
                if f[0] == '"' {
                    assert(needs_quotes(f));
                }
            }
        }
        lemma_read_plain(st, f);
    }
}

proof fn lemma_read_joined(st: CsvReading, r: Seq<Seq<char>>)
    requires
        st.mode == ReadMode::FieldStart,
        st.field.len() == 0,
        st.fields.len() == 0,
        r.len() > 0,
    ensures
        field_pending(read_from(st, joined_fields(r)), st.records, r.drop_last(), r.last()),
    decreases r.len(),
{
    if r.len() == 1 {
        lemma_read_field(st, r[0]);
        assert(r.drop_last() =~= Seq::<Seq<char>>::empty());
        assert(r.last() == r[0]);
        assert(st.fields =~= r.drop_last());
    } else {
        let h = r.drop_last();
        lemma_read_joined(st, h);
        let mid = read_from(st, joined_fields(h));
        lemma_read_concat(st, joined_fields(h) + seq![','], csv_field(r.last()));
        lemma_read_concat(st, joined_fields(h), seq![',']);
        lemma_read_one(mid, ',');
        let next = read_char(mid, ',');
        assert(next == end_field(mid));
        lemma_read_field(next, r.last());
        assert(h.drop_last().push(h.last()) =~= h);
    }
}

proof fn lemma_read_line(st: CsvReading, r: Seq<Seq<char>>)
    requires
        st.mode == ReadMode::FieldStart,
        st.field.len() == 0,
        st.fields.len() == 0,
        r.len() > 0,
    ensures
        read_from(st, csv_line(r)) == (CsvReading { records: st.records.push(r), ..st }),
{
    let j = joined_fields(r);
    lemma_read_joined(st, r);
    assert(st.fields =~= Seq::<Seq<char>>::empty());
    assert(st.field =~= Seq::<char>::empty());
    if j.len() == 0 {
        if r.len() > 1 {
            assert(j == joined_fields(r.drop_last()) + seq![','] + csv_field(r.last()));
        }
        assert(r.len() == 1);
        assert(r.last() == r[0]);
        assert(csv_field(r[0]).len() == 0);
        assert(r[0].len() == 0) by {
            if needs_quotes(r[0]) {
            }
        }
        lemma_read_concat(st, seq!['"', '"'], seq!['\n']);
        lemma_read_concat(st, seq!['"'], seq!['"']);
        assert(seq!['"'] + seq!['"'] =~= seq!['"', '"']);
        lemma_read_one(st, '"');
        lemma_read_one(read_char(st, '"'), '"');
        lemma_read_one(read_from(st, seq!['"', '"']), '\n');
        assert(r[0] =~= Seq::<char>::empty());
        assert(r =~= seq![Seq::<char>::empty()]);
        assert(st.fields.push(st.field) =~= r);
    } else {
        lemma_read_concat(st, j, seq!['\n']);
        let pending = read_from(st, j);
        lemma_read_one(pending, '\n');
        assert(csv_line(r) == j + seq!['\n']);
        assert(r.drop_last().push(r.last()) =~= r);
        assert(read_from(st, csv_line(r)) == end_record(pending));
    }
}

/// Reading the CSV document back gives the records written, where each has
/// at least one field.
pub proof fn lemma_csv_reads_back(records: Seq<Seq<Seq<char>>>)
    requires
        forall|i: int| 0 <= i < records.len() ==> (#[trigger] records[i]).len() > 0,
    ensures
        read_csv(csv_text(records)) == records,
        read_from(reading_start(), csv_text(records)) == (CsvReading { records, ..reading_start() }),
    decreases records.len(),
{
    if records.len() == 0 {
        assert(reading_start().records =~= records);
    } else {
        let h = records.drop_last();
        assert forall|i: int| 0 <= i < h.len() implies (#[trigger] h[i]).len() > 0 by {
            assert(h[i] == records[i]);
        }
        lemma_csv_reads_back(h);
        lemma_read_concat(reading_start(), csv_text(h), csv_line(records.last()));
        lemma_read_line(CsvReading { records: h, ..reading_start() }, records.last());
        assert(h.push(records.last()) =~= records);
    }
}

/// `csv::Writer::from_writer(Vec::new())`: a writer with the default settings
/// over an empty buffer; it holds no record yet.
#[verifier::external_body]
fn csv_writer() -> (w: CsvBuffer)
    ensures
        csv_records(w) == Seq::<Seq<Seq<char>>>::empty(),
{
    CsvBuffer { writer: csv::Writer::from_writer(Vec::new()) }
}

/// `csv::Writer::write_record`, with the writer handed back only on success:
/// the record then follows those already written. Writing into a `Vec`
/// cannot fail, and a writer with the default settings refuses a record only
/// when its number of fields differs from that of the first record, so
/// success is stated wherever the counts agree.
#[verifier::external_body]
fn csv_write_record(w: CsvBuffer, record: &Vec<String>) -> (r: Result<CsvBuffer, csv::Error>)
    ensures
        r matches Ok(w2) ==> csv_records(w2) == csv_records(w).push(record@.map_values(|c: String| c@)),
        (csv_records(w).len() == 0 || csv_records(w)[0].len() == record@.len()) ==> r is Ok,
{
    let mut w = w;
    match w.writer.write_record(record) {
        Ok(()) => Ok(w),
        Err(e) => Err(e),
    }
}

/// `csv::Writer::into_inner`: flushes the writer and gives back its buffer;
/// its error (which holds the writer) becomes `None`. Flushing into a `Vec`
/// cannot fail. The buffer holds the lines of the records written (see
/// `csv_text`) in UTF-8: the writer copies each field's bytes, adding only
/// ASCII quotes, commas and line feeds.
#[verifier::external_body]
fn csv_into_bytes(w: CsvBuffer) -> (r: Option<Vec<u8>>)
    ensures
        r is Some,
        r matches Some(b) ==> valid_utf8(b@) && decode_utf8(b@) == csv_text(csv_records(w)),
{
    w.writer.into_inner().ok()
}

/// `String::from_utf8`: succeeds exactly on valid UTF-8, with the text it encodes.
#[verifier::external_body]
fn string_from_utf8(bytes: Vec<u8>) -> (r: Result<String, std::string::FromUtf8Error>)
    ensures
        r is Ok <==> valid_utf8(bytes@),
        r matches Ok(s) ==> s@ == decode_utf8(bytes@),
{
    String::from_utf8(bytes)
}

/// Why an export could not be produced.
#[derive(Clone, Copy, Debug, PartialEq, Eq, Structural)]
pub enum ExportError {
    /// The CSV writer refused a record.
    Csv,
    /// The CSV writer could not be flushed.
    Flush,
    /// The CSV document is not valid UTF-8.
    Encoding,
}

/// Every row of the CSV export has as many fields as its header.
pub proof fn lemma_rows_same_width(records: Seq<ExportDevice>, include_timestamps: bool)
    ensures
        forall|k: int| 0 <= k < spec_csv_table(records, include_timestamps).len() ==>
            (#[trigger] spec_csv_table(records, include_timestamps)[k]).len()
                == csv_header(include_timestamps).len(),
{
    let t = spec_csv_table(records, include_timestamps);
    assert forall|k: int| 0 <= k < t.len() implies (#[trigger] t[k]).len() == csv_header(include_timestamps).len() by {
        if k > 0 {
            assert(t[k] == csv_row(records[k - 1], include_timestamps));
        }
    }
}

/// Reading the exported CSV document back with a standard CSV reader gives
/// the header row and one row per record, each field as exported, whatever
/// commas, quotes or line breaks the fields hold.
pub proof fn lemma_export_reads_back(records: Seq<ExportDevice>, include_timestamps: bool)
    ensures
        read_csv(csv_text(spec_csv_table(records, include_timestamps))) == spec_csv_table(records, include_timestamps),
{
    let t = spec_csv_table(records, include_timestamps);
    lemma_rows_same_width(records, include_timestamps);
    assert forall|i: int| 0 <= i < t.len() implies (#[trigger] t[i]).len() > 0 by {
        assert(t[i].len() == csv_header(include_timestamps).len());
    }
    lemma_csv_reads_back(t);
}

/// The CSV document of the records: the header row, then one row per record
/// (see `spec_csv_table`), as the csv crate writes it (see `csv_text`).
pub fn csv_document(records: &Vec<ExportDevice>, include_timestamps: bool) -> (r: Result<String, ExportError>)
    ensures
        r matches Ok(s) && s@ == csv_text(spec_csv_table(records@, include_timestamps)),
{
    let table = csv_table(records, include_timestamps);
    let ghost t = spec_csv_table(records@, include_timestamps);
    proof {
        lemma_rows_same_width(records@, include_timestamps);
    }
    let mut w = csv_writer();
    let mut i: usize = 0;
    assert(t.take(0) =~= Seq::<Seq<Seq<char>>>::empty());
    while i < table.len()
        invariant
            table_view(table@) == t,
            i <= table@.len(),
            csv_records(w) == t.take(i as int),
            forall|k: int| 0 <= k < t.len() ==> (#[trigger] t[k]).len() == csv_header(include_timestamps).len(),
        decreases table.len() - i,
    {
        assert(table@[i as int]@.map_values(|c: String| c@) == t[i as int]);
        assert(i > 0 ==> t.take(i as int)[0] == t[0]);
        w = match csv_write_record(w, &table[i]) {
            Ok(next) => next,
            Err(_) => {
                return Err(ExportError::Csv);
            },
        };
        assert(t.take(i + 1) =~= t.take(i as int).push(t[i as int]));
        i = i + 1;
    }
    assert(t.take(i as int) =~= t);
    let bytes = match csv_into_bytes(w) {
        Some(b) => b,
        None => {
            return Err(ExportError::Flush);
        },
    };
    match string_from_utf8(bytes) {
        Ok(s) => Ok(s),
        Err(_) => Err(ExportError::Encoding),
    }
}

/// The CSV export of the device list: the records of `build_records`, then
/// their CSV document (see `csv_document`).
pub fn export_csv(
    devices: &Vec<DeviceInfo>,
    nicknames: &PortMap<String>,
    session: &PortMap<SessionDevice>,
    include_timestamps: bool,
    now: Timestamp,
    utc_offset: i32,
) -> (r: Result<String, ExportError>)
    requires
        nicknames.wf(),
        session.wf(),
        session_map_wf(session@),
        now.wf(),
        offset_ok(utc_offset),
    ensures
        exists|recs: Seq<ExportDevice>| #![trigger spec_csv_table(recs, include_timestamps)] {
            &&& recs.len() == devices@.len()
            &&& forall|i: int| 0 <= i < devices@.len() ==>
                record_fits(#[trigger] recs[i], devices@[i], nicknames@, session@, include_timestamps, now, utc_offset)
            &&& r matches Ok(s) && s@ == csv_text(spec_csv_table(recs, include_timestamps))
        },
{
    let records = build_records(devices, nicknames, session, include_timestamps, now, utc_offset);
    csv_document(&records, include_timestamps)
}

} // verus!
