//! The command line: its options, which command they select, the export
//! format they name, and the choice of a port in the copy menu.

use vstd::prelude::*;
use vstd::string::*;

use crate::detection::{opt_view, DeviceInfo};
use crate::export::{lookup_nickname, nickname_of};
use crate::port_map::PortMap;
use crate::text::{decimal, push_str, same_text, u64_to_decimal};

verus! {

/// The options of the command line, with the defaults `days` 1,
/// `recent_mins` 30, `filter` "all" and `interval` 1000.
#[derive(Clone, Debug)]
pub struct Cli {
    /// Real-time monitoring mode
    pub watch: bool,
    /// Show connection history
    pub history: bool,
    /// Number of days of history to show
    pub days: u32,
    /// Export in the given format: json, csv or table
    pub export: Option<String>,
    /// Output file for export
    pub output: Option<String>,
    /// Include timestamp and uptime data in export output
    pub include_timestamps: bool,
    /// Show recently disconnected devices
    pub show_recent: bool,
    /// Minutes back that count as recent
    pub recent_mins: i64,
    /// Relative timestamps instead of absolute ones
    pub relative_time: bool,
    /// Select a port and copy it to the clipboard
    pub copy: bool,
    /// Device filter: arduino, generic or all
    pub filter: String,
    /// Clear the saved connection history
    pub clear_history: bool,
    /// Port and nickname to save
    pub nickname: Option<Vec<String>>,
    /// Port whose nickname to remove
    pub remove_nickname: Option<String>,
    /// List the saved nicknames
    pub list_nicknames: bool,
    /// Polling interval in milliseconds for watch mode
    pub interval: u64,
    /// Show all serial ports, PCI and Bluetooth included
    pub all: bool,
    /// Show serial numbers and product strings
    pub verbose: bool,
}

/// An export format as named on the command line.
#[derive(Clone, Debug)]
pub enum ExportFormat {
    Json,
    Csv,
    Table,
    /// Any other name, lower-cased.
    Unknown(String),
}

/// What the command line asks for.
#[derive(Clone, Debug)]
pub enum Command {
    SetNickname { port: String, name: String },
    RemoveNickname { port: String },
    ListNicknames,
    ClearHistory,
    ShowHistory { days: u32 },
    ShowRecent { minutes: i64 },
    Watch { filter: String, interval: u64 },
    Export { filter: String, format: ExportFormat },
    Copy { filter: String },
    ShowDevices { filter: String },
}

/// The filter in force: `all` where every port is asked for, else the one named.
pub open spec fn spec_filter(cli: Cli) -> Seq<char> {
    if cli.all { "all"@ } else { cli.filter@ }
}

/// The command the options select, the first that applies of: save a
/// nickname, remove a nickname, list nicknames, clear the history, show the
/// history, show recent disconnections, watch, export, copy, and otherwise
/// show the devices.
pub open spec fn spec_command_matches(c: Command, cli: Cli) -> bool {
    match cli.nickname {
        Some(parts) => c matches Command::SetNickname { port, name } && port@ == parts@[0]@ && name@ == parts@[1]@,
        None => match cli.remove_nickname {
            Some(p) => c matches Command::RemoveNickname { port } && port@ == p@,
            None => if cli.list_nicknames {
                c is ListNicknames
            } else if cli.clear_history {
                c is ClearHistory
            } else if cli.history {
                c matches Command::ShowHistory { days } && days == cli.days
            } else if cli.show_recent {
                c matches Command::ShowRecent { minutes } && minutes == cli.recent_mins
            } else if cli.watch {
                c matches Command::Watch { filter, interval } && filter@ == spec_filter(cli) && interval == cli.interval
            } else {
                match cli.export {
                    Some(f) => c matches Command::Export { filter, format }
                        && filter@ == spec_filter(cli) && spec_format_matches(format, f@),
                    None => if cli.copy {
                        c matches Command::Copy { filter } && filter@ == spec_filter(cli)
                    } else {
                        c matches Command::ShowDevices { filter } && filter@ == spec_filter(cli)
                    },
                }
            },
        },
    }
}

/// The lower-case form of a text, as `str::to_lowercase` gives it.
pub uninterp spec fn lowercase(s: Seq<char>) -> Seq<char>;

/// `str::to_lowercase`: the text with every character replaced by its
/// lower-case mapping (Unicode's, which may change the length).
#[verifier::external_body]
fn to_lowercase(s: &str) -> (r: String)
    ensures
        r@ == lowercase(s@),
{
    s.to_lowercase()
}

/// The export format that a lower-cased name selects.
pub open spec fn spec_format_of_lowered(format: ExportFormat, lowered: Seq<char>) -> bool {
    if lowered == "json"@ {
        format is Json
    } else if lowered == "csv"@ {
        format is Csv
    } else if lowered == "table"@ {
        format is Table
    } else {
        format matches ExportFormat::Unknown(s) && s@ == lowered
    }
}

/// The export format that a name selects: by its lower-case form.
pub open spec fn spec_format_matches(format: ExportFormat, name: Seq<char>) -> bool {
    spec_format_of_lowered(format, lowercase(name))
}

/// The export format that a lower-cased name selects.
pub fn export_format_of_lowered(lowered: String) -> (r: ExportFormat)
    ensures
        spec_format_of_lowered(r, lowered@),
{
    if same_text(lowered.as_str(), "json") {
        ExportFormat::Json
    } else if same_text(lowered.as_str(), "csv") {
        ExportFormat::Csv
    } else if same_text(lowered.as_str(), "table") {
        ExportFormat::Table
    } else {
        ExportFormat::Unknown(lowered)
    }
}

/// The export format that a name selects: json, csv or table in any case,
/// else unknown (with the name in lower case).
pub fn parse_export_format(name: &str) -> (r: ExportFormat)
    ensures
        spec_format_matches(r, name@),
{
    export_format_of_lowered(to_lowercase(name))
}

/// The command the options select (see `spec_command_matches`).
pub fn choose_command(cli: Cli) -> (r: Command)
    requires
        cli.nickname matches Some(parts) ==> parts@.len() >= 2,
    ensures
        spec_command_matches(r, cli),
{
    let filter = if cli.all { String::from_str("all") } else { cli.filter.clone() };
    match &cli.nickname {
        Some(parts) => {
            return Command::SetNickname { port: parts[0].clone(), name: parts[1].clone() };
        },
        None => {},
    }
    match &cli.remove_nickname {
        Some(p) => {
            return Command::RemoveNickname { port: p.clone() };
        },
        None => {},
    }
    if cli.list_nicknames {
        Command::ListNicknames
    } else if cli.clear_history {
        Command::ClearHistory
    } else if cli.history {
        Command::ShowHistory { days: cli.days }
    } else if cli.show_recent {
        Command::ShowRecent { minutes: cli.recent_mins }
    } else if cli.watch {
        Command::Watch { filter, interval: cli.interval }
    } else {
        match &cli.export {
            Some(f) => Command::Export { filter, format: parse_export_format(f.as_str()) },
            None => if cli.copy {
                Command::Copy { filter }
            } else {
                Command::ShowDevices { filter }
            },
        }
    }
}

/// The options that come first decide: a nickname to save is saved under
/// the port and name given; else a nickname to remove is removed for the port
/// given; else, with neither the nickname list nor the clearing of the
/// history asked for, the history, when asked for, is shown for exactly the
/// days of the `days` option.
pub proof fn lemma_command_precedence(cli: Cli, c: Command)
    requires
        spec_command_matches(c, cli),
    ensures
        cli.nickname matches Some(parts) ==> (c matches Command::SetNickname { port, name }
            && port@ == parts@[0]@ && name@ == parts@[1]@),
        cli.nickname is None && cli.remove_nickname is Some ==> (c matches Command::RemoveNickname { port }
            && port@ == cli.remove_nickname.unwrap()@),
        cli.nickname is None && cli.remove_nickname is None && cli.list_nicknames ==> c is ListNicknames,
        cli.nickname is None && cli.remove_nickname is None && !cli.list_nicknames && cli.clear_history
            ==> c is ClearHistory,
        cli.nickname is None && cli.remove_nickname is None && !cli.list_nicknames && !cli.clear_history
            && cli.history ==> (c matches Command::ShowHistory { days } && days == cli.days),
{
}

/// With no nickname to save or remove and neither the nickname list, the
/// clearing of the history nor the history asked for, the recent
/// disconnections, when asked for, are shown for exactly the minutes of the
/// `recent_mins` option, whatever its value.
pub proof fn lemma_recent_minutes(cli: Cli, c: Command)
    requires
        spec_command_matches(c, cli),
        cli.nickname is None,
        cli.remove_nickname is None,
        !cli.list_nicknames,
        !cli.clear_history,
        !cli.history,
        cli.show_recent,
    ensures
        match c {
            Command::ShowRecent { minutes: shown } => shown == cli.recent_mins,
            _ => false,
        },
{
}

/// Watching, exporting, copying and showing the devices all read the ports
/// under one filter: `all` where the `all` option is set, else the filter
/// option; an export keeps the format named by the `export` option.
pub proof fn lemma_command_filter(cli: Cli, c: Command)
    requires
        spec_command_matches(c, cli),
        cli.nickname is None,
        cli.remove_nickname is None,
        !cli.list_nicknames,
        !cli.clear_history,
        !cli.history,
        !cli.show_recent,
    ensures
        cli.watch ==> (c matches Command::Watch { filter, interval }
            && filter@ == (if cli.all { "all"@ } else { cli.filter@ }) && interval == cli.interval),
        !cli.watch && cli.export is Some ==> (c matches Command::Export { filter, format }
            && filter@ == (if cli.all { "all"@ } else { cli.filter@ })
            && spec_format_of_lowered(format, lowercase(cli.export.unwrap()@))),
        !cli.watch && cli.export is None && cli.copy ==> (c matches Command::Copy { filter }
            && filter@ == (if cli.all { "all"@ } else { cli.filter@ })),
        !cli.watch && cli.export is None && !cli.copy ==> (c matches Command::ShowDevices { filter }
            && filter@ == (if cli.all { "all"@ } else { cli.filter@ })),
{
}

// ─── Copy menu ───────────────────────────────────────────────────────────────

/// A character with the Unicode White_Space property (`char::is_whitespace`).
pub open spec fn is_white_space(c: char) -> bool {
    ||| '\u{9}' <= c <= '\u{d}'
    ||| c == ' '
    ||| c == '\u{85}'
    ||| c == '\u{a0}'
    ||| c == '\u{1680}'
    ||| '\u{2000}' <= c <= '\u{200a}'
    ||| c == '\u{2028}'
    ||| c == '\u{2029}'
    ||| c == '\u{202f}'
    ||| c == '\u{205f}'
    ||| c == '\u{3000}'
}

/// The text without the white space at its start and its end (`str::trim`).
pub open spec fn trim(s: Seq<char>) -> Seq<char>
    decreases s.len(),
{
    if s.len() > 0 && is_white_space(s[0]) {
        trim(s.drop_first())
    } else if s.len() > 0 && is_white_space(s.last()) {
        trim(s.drop_last())
    } else {
        s
    }
}

proof fn lemma_trim(s: Seq<char>, a: int, b: int)
    requires
        0 <= a <= b <= s.len(),
        forall|k: int| 0 <= k < a ==> is_white_space(#[trigger] s[k]),
        forall|k: int| b <= k < s.len() ==> is_white_space(#[trigger] s[k]),
        a < b ==> !is_white_space(s[a]) && !is_white_space(s[b - 1]),
    ensures
        trim(s) == s.subrange(a, b),
    decreases s.len(),
{
    if s.len() > 0 && is_white_space(s[0]) {
        let t = s.drop_first();
        if a == 0 {
            assert(b == 0);
            lemma_trim(t, 0, 0);
            assert(t.subrange(0, 0) =~= s.subrange(0, 0));
        } else {
            lemma_trim(t, a - 1, b - 1);
            assert(t.subrange(a - 1, b - 1) =~= s.subrange(a, b));
        }
    } else if s.len() > 0 && is_white_space(s.last()) {
        let t = s.drop_last();
        if b == s.len() {
            assert(a == b);
            assert(is_white_space(s[0]));
        }
        lemma_trim(t, a, b);
        assert(t.subrange(a, b) =~= s.subrange(a, b));
    } else {
        if s.len() > 0 {
            if a > 0 {
                assert(is_white_space(s[0]));
            }
            if b < s.len() {
                assert(is_white_space(s[s.len() - 1]));
            }
        }
        assert(s.subrange(a, b) =~= s);
    }
}

fn white_space_char(c: char) -> (r: bool)
    ensures
        r == is_white_space(c),
{
    ('\u{9}' <= c && c <= '\u{d}') || c == ' ' || c == '\u{85}' || c == '\u{a0}' || c == '\u{1680}'
        || ('\u{2000}' <= c && c <= '\u{200a}') || c == '\u{2028}' || c == '\u{2029}' || c == '\u{202f}'
        || c == '\u{205f}' || c == '\u{3000}'
}

/// An ASCII decimal digit.
pub open spec fn is_dec_digit(c: char) -> bool {
    '0' <= c <= '9'
}

/// The value of a string of decimal digits.
pub open spec fn dec_value(d: Seq<char>) -> nat
    decreases d.len(),
{
    if d.len() == 0 {
        0
    } else {
        dec_value(d.drop_last()) * 10 + ((d.last() as nat) - 48) as nat
    }
}

/// The `usize` that a text spells (`usize::from_str`): an optional `+` and
/// at least one decimal digit, of a value that fits.
pub open spec fn spec_parse_usize(s: Seq<char>) -> Option<usize> {
    let digits = sign_stripped(s);
    if digits.len() > 0 && all_dec_digits(digits) && dec_value(digits) <= usize::MAX {
        Some(dec_value(digits) as usize)
    } else {
        None
    }
}

/// The text without a leading `+`.
pub open spec fn sign_stripped(s: Seq<char>) -> Seq<char> {
    if s.len() > 0 && s[0] == '+' { s.drop_first() } else { s }
}

/// Every character is a decimal digit.
pub open spec fn all_dec_digits(d: Seq<char>) -> bool {
    forall|i: int| 0 <= i < d.len() ==> is_dec_digit(#[trigger] d[i])
}

proof fn lemma_dec_value_push(d: Seq<char>, c: char)
    ensures
        dec_value(d.push(c)) == dec_value(d) * 10 + ((c as nat) - 48) as nat,
{
    assert(d.push(c).drop_last() =~= d);
}

/// The `usize` that the characters `start..end` of `s` spell (see `spec_parse_usize`).
fn parse_usize_range(s: &str, start: usize, end: usize) -> (r: Option<usize>)
    requires
        start <= end <= s@.len(),
    ensures
        r == spec_parse_usize(s@.subrange(start as int, end as int)),
{
    let ghost t = s@.subrange(start as int, end as int);
    let mut i = start;
    if i < end && s.get_char(i) == '+' {
        i = i + 1;
    }
    let ghost digits = s@.subrange(i as int, end as int);
    assert(digits =~= sign_stripped(t));
    if i == end {
        return None;
    }
    let mut acc: usize = 0;
    let mut j = i;
    assert(digits.subrange(0, 0) =~= Seq::<char>::empty());
    while j < end
        invariant
            i <= j <= end,
            i < end,
            end <= s@.len(),
            digits == s@.subrange(i as int, end as int),
            t == s@.subrange(start as int, end as int),
            digits == sign_stripped(t),
            forall|k: int| 0 <= k < j - i ==> is_dec_digit(#[trigger] digits[k]),
            acc == dec_value(digits.subrange(0, j - i)),
        decreases end - j,
    {
        let c = s.get_char(j);
        if !('0' <= c && c <= '9') {
            assert(!is_dec_digit(digits[j - i]));
            assert(!all_dec_digits(digits));
            return None;
        }
        let d: usize = ((c as u32) - 48) as usize;
        proof {
            assert(digits.subrange(0, j + 1 - i) =~= digits.subrange(0, j - i).push(c));
            lemma_dec_value_push(digits.subrange(0, j - i), c);
        }
        if acc > (usize::MAX - d) / 10 {
            proof {
                assert(dec_value(digits.subrange(0, j + 1 - i)) > usize::MAX) by (nonlinear_arith)
                    requires acc > (usize::MAX - d) / 10, d <= 9,
                    dec_value(digits.subrange(0, j + 1 - i)) == acc * 10 + d;
                lemma_dec_value_prefix_grows(digits, j + 1 - i);
            }
            return None;
        }
        acc = acc * 10 + d;
        j = j + 1;
    }
    assert(digits.subrange(0, end - i) =~= digits);
    Some(acc)
}

proof fn lemma_dec_value_prefix_grows(d: Seq<char>, n: int)
    requires
        0 <= n <= d.len(),
        forall|k: int| 0 <= k < d.len() ==> is_dec_digit(#[trigger] d[k]) || k >= n,
    ensures
        (forall|k: int| 0 <= k < d.len() ==> is_dec_digit(#[trigger] d[k])) ==> dec_value(d) >= dec_value(d.subrange(0, n)),
    decreases d.len() - n,
{
    if n < d.len() && (forall|k: int| 0 <= k < d.len() ==> is_dec_digit(#[trigger] d[k])) {
        lemma_dec_value_prefix_grows(d, n + 1);
        assert(d.subrange(0, n + 1) =~= d.subrange(0, n).push(d[n]));
        lemma_dec_value_push(d.subrange(0, n), d[n]);
    } else if n == d.len() {
        assert(d.subrange(0, n) =~= d);
    }
}

/// The 0-based index that an entry in the copy menu selects: the text,
/// trimmed, spells a number from 1 to `count`.
pub open spec fn spec_selection(input: Seq<char>, count: nat) -> Option<usize> {
    match spec_parse_usize(trim(input)) {
        Some(n) => if 1 <= n <= count { Some((n - 1) as usize) } else { None },
        None => None,
    }
}

/// The 0-based index that an entry in the copy menu selects among `count`
/// ports (see `spec_selection`).
pub fn parse_selection(input: &str, count: usize) -> (r: Option<usize>)
    ensures
        r == spec_selection(input@, count as nat),
{
    let n = input.unicode_len();
    let mut a: usize = 0;
    while a < n && white_space_char(input.get_char(a))
        invariant
            n == input@.len(),
            a <= n,
            forall|k: int| 0 <= k < a ==> is_white_space(#[trigger] input@[k]),
        decreases n - a,
    {
        a = a + 1;
    }
    let mut b: usize = n;
    while b > a && white_space_char(input.get_char(b - 1))
        invariant
            n == input@.len(),
            a <= b <= n,
            forall|k: int| b <= k < n ==> is_white_space(#[trigger] input@[k]),
        decreases b,
    {
        b = b - 1;
    }
    proof {
        if a == b && a < n {
            assert(is_white_space(input@[a as int]));
        }
        if a == b {
            lemma_trim(input@, b as int, b as int);
            assert forall|k: int| 0 <= k < n implies is_white_space(#[trigger] input@[k]) by {
                if k >= a {
                }
            }
        } else {
            lemma_trim(input@, a as int, b as int);
        }
    }
    let ghost t = trim(input@);
    match parse_usize_range(input, a, b) {
        Some(v) => {
            if 1 <= v && v <= count {
                Some(v - 1)
            } else {
                None
            }
        },
        None => None,
    }
}

/// One entry of the copy menu.
#[derive(Clone, Debug)]
pub struct CopyChoice {
    /// The number to enter, from 1.
    pub number: String,
    pub port: String,
    pub board: String,
    /// `  (nickname)` where one is saved, else empty.
    pub nick: String,
}

/// The entry of device `d` at 0-based place `i` of the copy menu.
pub open spec fn choice_of(c: CopyChoice, d: DeviceInfo, i: int, nickname: Option<Seq<char>>) -> bool {
    &&& c.number@ == decimal((i + 1) as nat)
    &&& c.port@ == d.port@
    &&& c.board@ == d.board_name@
    &&& c.nick@ == match nickname {
        Some(n) => "  ("@ + n + ")"@,
        None => Seq::empty(),
    }
}

/// The entries of the copy menu, one per device in their order.
pub fn copy_choices(devices: &Vec<DeviceInfo>, nicknames: &PortMap<String>) -> (r: Vec<CopyChoice>)
    requires
        nicknames.wf(),
    ensures
        r@.len() == devices@.len(),
        forall|i: int| 0 <= i < devices@.len() ==>
            choice_of(#[trigger] r@[i], devices@[i], i, nickname_of(nicknames@, devices@[i].port@)),
{
    let mut out: Vec<CopyChoice> = Vec::new();
    let mut i: usize = 0;
    while i < devices.len()
        invariant
            nicknames.wf(),
            i <= devices@.len(),
            out@.len() == i,
            forall|k: int| 0 <= k < i ==>
                choice_of(#[trigger] out@[k], devices@[k], k, nickname_of(nicknames@, devices@[k].port@)),
        decreases devices.len() - i,
    {
        let d = &devices[i];
        let nick = match lookup_nickname(nicknames, d.port.as_str()) {
            Some(n) => {
                let mut t = String::from_str("  (");
                push_str(&mut t, n.as_str());
                push_str(&mut t, ")");
                t
            },
            None => String::new(),
        };
        let c = CopyChoice {
            number: u64_to_decimal((i as u64) + 1),
            port: d.port.clone(),
            board: d.board_name.clone(),
            nick,
        };
        out.push(c);
        assert(out@[i as int] == c);
        i = i + 1;
    }
    out
}

/// The port that an entry in the copy menu selects, if it selects one.
pub fn selected_port(devices: &Vec<DeviceInfo>, input: &str) -> (r: Option<String>)
    ensures
        match spec_selection(input@, devices@.len()) {
            Some(i) => opt_view(r) == Some(devices@[i as int].port@),
            None => r is None,
        },
{
    match parse_selection(input, devices.len()) {
        Some(i) => Some(devices[i].port.clone()),
        None => None,
    }
}

} // verus!
