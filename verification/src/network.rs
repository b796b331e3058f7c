//! Access-point records and how a line of scan output becomes one.

use vstd::prelude::*;

verus! {

/// Mathematical picture of an access point.
pub struct Record {
    pub ssid: Seq<char>,
    pub signal: nat,
    pub security: Seq<char>,
    pub rate: Seq<char>,
    pub bars: Seq<char>,
    pub connected: bool,
}

/// One observed access point.
#[derive(Debug)]
pub struct Network {
    /// The advertised name; records are identified by it.
    pub ssid: String,
    /// Signal strength in percent.
    pub signal: u8,
    pub security: String,
    pub rate: String,
    pub bars: String,
    /// Whether this is the network the interface is associated with.
    pub is_connected: bool,
}

impl View for Network {
    type V = Record;

    open spec fn view(&self) -> Record {
        Record {
            ssid: self.ssid@,
            signal: self.signal as nat,
            security: self.security@,
            rate: self.rate@,
            bars: self.bars@,
            connected: self.is_connected,
        }
    }
}

impl Clone for Network {
    fn clone(&self) -> (copy: Network)
        ensures
            copy == *self,
    {
        Network {
            ssid: self.ssid.clone(),
            signal: self.signal,
            security: self.security.clone(),
            rate: self.rate.clone(),
            bars: self.bars.clone(),
            is_connected: self.is_connected,
        }
    }
}

/// The pictures of a list of records, in order.
pub open spec fn records(networks: Seq<Network>) -> Seq<Record> {
    networks.map_values(|n: Network| n@)
}

/// The contents of a list of strings, in order.
pub open spec fn texts(lines: Seq<String>) -> Seq<Seq<char>> {
    lines.map_values(|s: String| s@)
}

/// The strongest signal a record can report.
pub const MAX_SIGNAL: u8 = 100;

pub open spec fn is_digit(c: char) -> bool {
    '0' <= c <= '9'
}

/// The number that a run of decimal digits writes.
pub open spec fn digits_value(s: Seq<char>) -> nat
    decreases s.len(),
{
    if s.len() == 0 {
        0
    } else {
        digits_value(s.drop_last()) * 10 + (s.last() as nat - '0' as nat) as nat
    }
}

/// Whether `s` is a decimal number of at most `MAX_SIGNAL`.
pub open spec fn is_signal_text(s: Seq<char>) -> bool {
    &&& s.len() > 0
    &&& forall|i: int| 0 <= i < s.len() ==> is_digit(#[trigger] s[i])
    &&& digits_value(s) <= MAX_SIGNAL
}

/// The signal strength that a text field stands for: its number, or 0
/// where it writes none.
pub open spec fn signal_value(s: Seq<char>) -> nat {
    if is_signal_text(s) {
        digits_value(s)
    } else {
        0
    }
}

/// Digits appended to a number never make it smaller.
pub proof fn lemma_digits_value_grows(s: Seq<char>, k: int)
    requires
        0 <= k <= s.len(),
        forall|i: int| 0 <= i < s.len() ==> is_digit(#[trigger] s[i]),
    ensures
        digits_value(s.take(k)) <= digits_value(s),
    decreases s.len() - k,
{
    if k < s.len() {
        lemma_digits_value_grows(s, k + 1);
        assert(s.take(k + 1).drop_last() =~= s.take(k));
    } else {
        assert(s.take(k) =~= s);
    }
}

/// Reads a signal strength. Text that is not a decimal number of at most
/// `MAX_SIGNAL` counts as no signal.
pub fn parse_signal(text: &str) -> (signal: u8)
    ensures
        signal as nat == signal_value(text@),
        signal <= MAX_SIGNAL,
{
    let n = text.unicode_len();
    if n == 0 {
        return 0;
    }
    let mut value: u8 = 0;
    let mut i: usize = 0;
    while i < n
        invariant
            n == text@.len(),
            0 <= i <= n,
            value <= MAX_SIGNAL,
            value as nat == digits_value(text@.take(i as int)),
            forall|j: int| 0 <= j < i ==> is_digit(#[trigger] text@[j]),
        decreases n - i,
    {
        let c = text.get_char(i);
        if !('0' <= c && c <= '9') {
            return 0;
        }
        let digit: u8 = (c as u32 - '0' as u32) as u8;
        proof {
            assert(text@.take(i + 1).drop_last() =~= text@.take(i as int));
            assert(text@.take(i + 1).last() == c);
        }
        if value > 10 || value * 10 + digit > MAX_SIGNAL {
            proof {
                if forall|j: int| 0 <= j < n ==> is_digit(#[trigger] text@[j]) {
                    lemma_digits_value_grows(text@, i + 1);
                }
            }
            return 0;
        }
        value = value * 10 + digit;
        i += 1;
    }
    proof {
        assert(text@.take(n as int) =~= text@);
    }
    value
}

/// The character that separates the fields of a line.
pub const SEPARATOR: char = ':';

/// The fields of a line: what stands between its separators, in order.
/// Reading one more character either opens a new field or extends the last.
pub open spec fn fields(line: Seq<char>) -> Seq<Seq<char>>
    decreases line.len(),
{
    if line.len() == 0 {
        seq![Seq::empty()]
    } else {
        let before = fields(line.drop_last());
        if line.last() == SEPARATOR {
            before.push(Seq::empty())
        } else {
            before.drop_last().push(before.last().push(line.last()))
        }
    }
}

/// The fields put together again, with a separator between neighbours.
pub open spec fn joined(parts: Seq<Seq<char>>) -> Seq<char>
    decreases parts.len(),
{
    if parts.len() == 0 {
        Seq::empty()
    } else if parts.len() == 1 {
        parts[0]
    } else {
        joined(parts.drop_last()).push(SEPARATOR) + parts.last()
    }
}

/// A line has at least one field, no field holds a separator, and the
/// fields joined by separators are the line again.
pub proof fn lemma_fields_partition(line: Seq<char>)
    ensures
        fields(line).len() >= 1,
        forall|i: int, j: int|
            0 <= i < fields(line).len() && 0 <= j < fields(line)[i].len()
                ==> #[trigger] fields(line)[i][j] != SEPARATOR,
        joined(fields(line)) == line,
    decreases line.len(),
{
    if line.len() == 0 {
        assert(joined(fields(line)) =~= line);
    } else {
        let shorter = line.drop_last();
        lemma_fields_partition(shorter);
        let before = fields(shorter);
        if line.last() == SEPARATOR {
            let now = before.push(Seq::empty());
            assert(now.drop_last() =~= before);
            assert(joined(now) =~= joined(before).push(SEPARATOR));
            assert(shorter.push(SEPARATOR) =~= line);
        } else {
            let now = before.drop_last().push(before.last().push(line.last()));
            if before.len() == 1 {
                assert(joined(now) =~= before[0].push(line.last()));
            } else {
                assert(now.drop_last() =~= before.drop_last());
                assert(joined(now) =~= (joined(before.drop_last()).push(SEPARATOR)
                    + before.last()).push(line.last()));
            }
            assert(shorter.push(line.last()) =~= line);
        }
    }
}

/// Splits a line at its separators.
pub fn split_fields(line: &str) -> (parts: Vec<String>)
    ensures
        texts(parts@) == fields(line@),
{
    let n = line.unicode_len();
    let mut parts: Vec<String> = Vec::new();
    let mut start: usize = 0;
    let mut i: usize = 0;
    proof {
        assert(line@.take(0).len() == 0);
        assert(line@.subrange(0, 0) =~= Seq::empty());
        assert(texts(parts@) =~= Seq::empty());
        assert(texts(parts@).push(line@.subrange(0, 0)) =~= seq![Seq::empty()]);
    }
    while i < n
        invariant
            n == line@.len(),
            0 <= start <= i <= n,
            fields(line@.take(i as int)) == texts(parts@).push(
                line@.subrange(start as int, i as int),
            ),
        decreases n - i,
    {
        let c = line.get_char(i);
        proof {
            assert(line@.take(i + 1).drop_last() =~= line@.take(i as int));
            assert(line@.take(i + 1).last() == c);
        }
        let ghost done = texts(parts@);
        let ghost current = line@.subrange(start as int, i as int);
        if c == SEPARATOR {
            let part = line.substring_char(start, i);
            parts.push(String::from_str(part));
            start = i + 1;
            proof {
                assert(texts(parts@) =~= done.push(current));
                assert(line@.subrange(start as int, i + 1) =~= Seq::empty());
            }
        } else {
            proof {
                assert(done.push(current).drop_last() =~= done);
                assert(line@.subrange(start as int, i + 1) =~= current.push(c));
            }
        }
        i += 1;
    }
    let part = line.substring_char(start, n);
    parts.push(String::from_str(part));
    proof {
        assert(line@.take(n as int) =~= line@);
        assert(texts(parts@) =~= fields(line@));
    }
    parts
}

/// How many fields a line must have to describe an access point.
pub const FIELD_COUNT: usize = 5;

/// The record that a line of scan output describes, if any: its first five
/// fields are name, signal, security, rate and bars. A line with fewer
/// fields, or with an empty name, describes none. The record is connected
/// where its name is that of the active network.
pub open spec fn normalized(line: Seq<char>, active_ssid: Seq<char>) -> Option<Record> {
    let f = fields(line);
    if f.len() < FIELD_COUNT || f[0].len() == 0 {
        None
    } else {
        Some(
            Record {
                ssid: f[0],
                signal: signal_value(f[1]),
                security: f[2],
                rate: f[3],
                bars: f[4],
                connected: f[0] == active_ssid,
            },
        )
    }
}

/// The records that a list of lines describes, in the order of the lines;
/// lines that describe none are left out.
pub open spec fn normalized_all(lines: Seq<Seq<char>>, active_ssid: Seq<char>) -> Seq<Record>
    decreases lines.len(),
{
    if lines.len() == 0 {
        Seq::empty()
    } else {
        let before = normalized_all(lines.drop_last(), active_ssid);
        match normalized(lines.last(), active_ssid) {
            Some(record) => before.push(record),
            None => before,
        }
    }
}

/// With the empty name as the active one, no record is connected: a line
/// without a name describes no record.
pub proof fn lemma_no_active_name_connects_none(line: Seq<char>)
    ensures
        match normalized(line, Seq::empty()) {
            Some(record) => !record.connected,
            None => true,
        },
{
}

/// A record is connected exactly where its name is the active one, and a
/// line describes a record exactly where it has five fields and a name.
pub proof fn lemma_normalized_record(line: Seq<char>, active_ssid: Seq<char>)
    ensures
        normalized(line, active_ssid) is Some <==> fields(line).len() >= FIELD_COUNT
            && fields(line)[0].len() > 0,
        normalized(line, active_ssid) is Some ==> {
            let record = normalized(line, active_ssid)->0;
            &&& record.ssid.len() > 0
            &&& record.signal <= MAX_SIGNAL
            &&& record.connected == (record.ssid == active_ssid)
        },
{
}

impl Network {
    /// Reads one line of scan output of the form
    /// `SSID:SIGNAL:SECURITY:RATE:BARS`.
    pub fn from_nmcli_line(line: &str, active_ssid: &str) -> (network: Option<Network>)
        ensures
            match network {
                Some(n) => normalized(line@, active_ssid@) == Some(n@),
                None => normalized(line@, active_ssid@) is None,
            },
    {
        let parts = split_fields(line);
        if parts.len() < FIELD_COUNT || parts[0].as_str().unicode_len() == 0 {
            return None;
        }
        let active = String::from_str(active_ssid);
        let is_connected = parts[0] == active;
        Some(
            Network {
                ssid: parts[0].clone(),
                signal: parse_signal(parts[1].as_str()),
                security: parts[2].clone(),
                rate: parts[3].clone(),
                bars: parts[4].clone(),
                is_connected,
            },
        )
    }
}

/// Every record read from lines has a name, a signal on the scale, and is
/// connected exactly when its name is the active one.
pub proof fn lemma_normalized_all_records(lines: Seq<Seq<char>>, active_ssid: Seq<char>)
    ensures
        forall|i: int|
            0 <= i < normalized_all(lines, active_ssid).len() ==> {
                let record = #[trigger] normalized_all(lines, active_ssid)[i];
                &&& record.ssid.len() > 0
                &&& record.signal <= MAX_SIGNAL
                &&& record.connected == (record.ssid == active_ssid)
            },
    decreases lines.len(),
{
    if lines.len() > 0 {
        let before = normalized_all(lines.drop_last(), active_ssid);
        let all = normalized_all(lines, active_ssid);
        lemma_normalized_all_records(lines.drop_last(), active_ssid);
        lemma_normalized_record(lines.last(), active_ssid);
        assert forall|i: int| 0 <= i < all.len() implies {
            let record = #[trigger] all[i];
            &&& record.ssid.len() > 0
            &&& record.signal <= MAX_SIGNAL
            &&& record.connected == (record.ssid == active_ssid)
        } by {
            if i < before.len() {
                assert(all[i] == before[i]);
            } else {
                assert(all[i] == normalized(lines.last(), active_ssid)->0);
            }
        }
    }
}

/// Reads every line of scan output and keeps the records of those that
/// describe an access point.
pub fn parse_lines(lines: &Vec<String>, active_ssid: &str) -> (networks: Vec<Network>)
    ensures
        records(networks@) == normalized_all(texts(lines@), active_ssid@),
{
    let mut networks: Vec<Network> = Vec::new();
    let mut i: usize = 0;
    proof {
        assert(texts(lines@).take(0) =~= Seq::empty());
        assert(records(networks@) =~= Seq::empty());
    }
    while i < lines.len()
        invariant
            0 <= i <= lines.len(),
            records(networks@) == normalized_all(texts(lines@).take(i as int), active_ssid@),
        decreases lines.len() - i,
    {
        let ghost before = records(networks@);
        proof {
            assert(texts(lines@).take(i + 1).drop_last() =~= texts(lines@).take(i as int));
            assert(texts(lines@).take(i + 1).last() == lines@[i as int]@);
        }
        if let Some(network) = Network::from_nmcli_line(lines[i].as_str(), active_ssid) {
            networks.push(network);
            proof {
                assert(records(networks@) =~= before.push(network@));
            }
        }
        i += 1;
    }
    proof {
        assert(texts(lines@).take(lines.len() as int) =~= texts(lines@));
    }
    networks
}

/// The name that a line of the form `SSID:ACTIVE` reports as the active
/// network: what stands before a closing `:yes`.
pub open spec fn active_name(line: Seq<char>) -> Option<Seq<char>> {
    let n = line.len();
    if n >= 4 && line[n - 4] == ':' && line[n - 3] == 'y' && line[n - 2] == 'e' && line[n - 1]
        == 's' {
        Some(line.take(n - 4))
    } else {
        None
    }
}

/// The first line that reports an active network is line `i`.
pub open spec fn is_first_active(lines: Seq<Seq<char>>, i: int) -> bool {
    &&& 0 <= i < lines.len()
    &&& active_name(lines[i]) is Some
    &&& forall|j: int| 0 <= j < i ==> active_name(#[trigger] lines[j]) is None
}

/// The name of the active network that the lines report: that of the
/// first line that reports one.
pub open spec fn reported_active(lines: Seq<Seq<char>>) -> Option<Seq<char>> {
    if exists|i: int| is_first_active(lines, i) {
        active_name(lines[choose|i: int| is_first_active(lines, i)])
    } else {
        None
    }
}

/// Finds the name of the active network in lines of the form
/// `SSID:ACTIVE`: the name of the first line that ends in `:yes`.
pub fn active_ssid(active_lines: &Vec<String>) -> (ssid: Option<String>)
    ensures
        match ssid {
            Some(name) => reported_active(texts(active_lines@)) == Some(name@),
            None => reported_active(texts(active_lines@)) is None,
        },
{
    let mut i: usize = 0;
    while i < active_lines.len()
        invariant
            0 <= i <= active_lines.len(),
            forall|j: int| 0 <= j < i ==> active_name(#[trigger] texts(active_lines@)[j]) is None,
        decreases active_lines.len() - i,
    {
        let line = active_lines[i].as_str();
        let n = line.unicode_len();
        if n >= 4 && line.get_char(n - 4) == ':' && line.get_char(n - 3) == 'y' && line.get_char(
            n - 2,
        ) == 'e' && line.get_char(n - 1) == 's' {
            let name = String::from_str(line.substring_char(0, n - 4));
            proof {
                assert(texts(active_lines@)[i as int] == line@);
                assert(line@.subrange(0, n - 4) == line@.take(n - 4));
                assert(is_first_active(texts(active_lines@), i as int));
                let first = choose|k: int| is_first_active(texts(active_lines@), k);
                assert(first == i) by {
                    if first < i {
                        assert(active_name(texts(active_lines@)[first]) is None);
                    }
                    if i < first {
                        assert(active_name(texts(active_lines@)[i as int]) is None);
                    }
                }
            }
            return Some(name);
        }
        proof {
            assert(texts(active_lines@)[i as int] == line@);
        }
        i += 1;
    }
    proof {
        if exists|k: int| is_first_active(texts(active_lines@), k) {
            let first = choose|k: int| is_first_active(texts(active_lines@), k);
            assert(active_name(texts(active_lines@)[first]) is None);
        }
    }
    None
}

} // verus!
