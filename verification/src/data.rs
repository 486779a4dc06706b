//! The event store: the logs of all processes merged into one timeline.

use crate::csv_rows::{csv_rows, error_row, read_rows};
use crate::decimal::{as_u32, parse_u64_in};
use crate::event::{all_wf, sorted_by_time, Event, EventView};
use crate::schema::{parse_record, raw_event_of, schema_of, Schema};
use crate::sort::{is_stable_sort, sort_by_time};
use std::collections::HashMap;
use vstd::prelude::*;
use vstd::utf8::encode_utf8;

verus! {

/// Why a set of logs could not be loaded. Every error ends the whole load.
#[derive(Clone, Copy, Debug, PartialEq, Eq, Structural)]
pub enum LoadError {
    /// The directory or a file in it could not be read.
    Io,
    /// The log of process `pe` breaks the schema in its row `record`; row 0
    /// is the header.
    Schema { pe: u32, record: usize },
    /// The first record of the log of process `pe` does not name its host.
    MissingHostname { pe: u32 },
    /// The log of process `pe` holds no record.
    EmptyFile { pe: u32 },
}

/// The bytes of `pperf.`, with which the name of a log begins.
pub open spec fn name_prefix() -> Seq<u8> {
    seq![112u8, 112u8, 101u8, 114u8, 102u8, 46u8]
}

/// The bytes of `.csv`, with which the name of a log ends.
pub open spec fn name_suffix() -> Seq<u8> {
    seq![46u8, 99u8, 115u8, 118u8]
}

/// The process whose log a file of this name is: the name is `pperf.`, an
/// unsigned decimal number, and `.csv`. The number is below the largest
/// `u32`, so that the count of processes still fits. Other files are no logs.
pub open spec fn file_process(name: Seq<u8>) -> Option<u32> {
    if name.len() >= 10 && name.subrange(0, 6) == name_prefix() && name.subrange(
        name.len() - 4,
        name.len() as int,
    ) == name_suffix() {
        match as_u32(name.subrange(6, name.len() - 4)) {
            Some(pe) => if pe < u32::MAX {
                Some(pe)
            } else {
                None
            },
            None => None,
        }
    } else {
        None
    }
}

/// Reads the process off the name of a file.
pub fn parse_file_name(name: &str) -> (r: Option<u32>)
    ensures
        r == file_process(encode_utf8(name@)),
{
    let bytes = name.as_bytes();
    let n: usize = bytes.len();
    if n < 10 {
        return None;
    }
    let prefix_ok: bool = bytes[0] == 112 && bytes[1] == 112 && bytes[2] == 101 && bytes[3] == 114
        && bytes[4] == 102 && bytes[5] == 46;
    let suffix_ok: bool = bytes[n - 4] == 46 && bytes[n - 3] == 99 && bytes[n - 2] == 115 && bytes[n
        - 1] == 118;
    proof {
        let p = bytes@.subrange(0, 6);
        let s = bytes@.subrange(n - 4, n as int);
        if prefix_ok {
            assert(p =~= name_prefix());
        } else {
            assert(p[0] == bytes[0] && p[1] == bytes[1] && p[2] == bytes[2] && p[3] == bytes[3]
                && p[4] == bytes[4] && p[5] == bytes[5]);
            assert(name_prefix()[0] == 112 && name_prefix()[1] == 112 && name_prefix()[2] == 101
                && name_prefix()[3] == 114 && name_prefix()[4] == 102 && name_prefix()[5] == 46);
        }
        if suffix_ok {
            assert(s =~= name_suffix());
        } else {
            assert(s[0] == bytes[n - 4] && s[1] == bytes[n - 3] && s[2] == bytes[n - 2] && s[3]
                == bytes[n - 1]);
            assert(name_suffix()[0] == 46 && name_suffix()[1] == 99 && name_suffix()[2] == 115
                && name_suffix()[3] == 118);
        }
    }
    if !prefix_ok || !suffix_ok {
        return None;
    }
    match parse_u64_in(bytes, 6, n - 4) {
        Some(v) => if v < u32::MAX as u64 {
            Some(v as u32)
        } else {
            None
        },
        None => None,
    }
}

/// The events of one process, in the order of its log.
#[derive(Debug)]
pub struct ProcessLog {
    pub pe: u32,
    pub events: Vec<Event>,
}

/// The event that a row of the log of process `pe` stands for.
pub open spec fn row_event(schema: Schema, row: Seq<Seq<char>>, pe: u32) -> Option<EventView> {
    match raw_event_of(schema, row) {
        Some(raw) => Some(EventView { source_pe: pe, raw }),
        None => None,
    }
}

/// Whether row `k` of a log is the first that breaks the schema; row 0 is
/// the header.
pub open spec fn first_bad_row(rows: Seq<Seq<Seq<char>>>, k: int) -> bool {
    if k == 0 {
        rows.len() > 0 && schema_of(rows[0]).is_none()
    } else {
        &&& 1 <= k < rows.len()
        &&& schema_of(rows[0]).is_some()
        &&& raw_event_of(schema_of(rows[0]).unwrap(), rows[k]).is_none()
        &&& forall|j: int|
            1 <= j < k ==> raw_event_of(schema_of(rows[0]).unwrap(), #[trigger] rows[j]).is_some()
    }
}

/// Whether `events` are what the rows behind the header stand for, one
/// event per row.
pub open spec fn events_of_rows(rows: Seq<Seq<Seq<char>>>, pe: u32, events: Seq<Event>) -> bool {
    if rows.len() == 0 {
        events.len() == 0
    } else {
        &&& schema_of(rows[0]).is_some()
        &&& events.len() == rows.len() - 1
        &&& forall|i: int|
            0 <= i < events.len() ==> row_event(schema_of(rows[0]).unwrap(), rows[i + 1], pe)
                == Some((#[trigger] events[i])@)
    }
}

/// Turns the rows of the log of process `source_pe` into its events. The
/// first row that breaks the schema ends the load and is named in the
/// error. A log without any row has no events.
#[verifier::rlimit(40)]
pub fn load_file(rows: &Vec<Vec<String>>, source_pe: u32) -> (r: Result<Vec<Event>, LoadError>)
    ensures
        match r {
            Ok(events) => events_of_rows(rows.deep_view(), source_pe, events@) && all_wf(events@)
                && forall|i: int| 0 <= i < events.len() ==> (#[trigger] events[i]).source_pe == source_pe,
            Err(LoadError::Schema { pe, record }) => pe == source_pe && first_bad_row(
                rows.deep_view(),
                record as int,
            ),
            Err(_) => false,
        },
{
    let ghost table = rows.deep_view();
    let mut events: Vec<Event> = Vec::new();
    if rows.len() == 0 {
        return Ok(events);
    }
    assert(table[0] == rows[0].deep_view());
    let schema = match Schema::from_header(&rows[0]) {
        Some(schema) => schema,
        None => {
            return Err(LoadError::Schema { pe: source_pe, record: 0 });
        },
    };
    let mut k: usize = 1;
    while k < rows.len()
        invariant
            1 <= k <= rows.len(),
            table == rows.deep_view(),
            schema_of(table[0]) == Some(schema),
            events.len() == k - 1,
            forall|i: int|
                0 <= i < events.len() ==> row_event(schema, table[i + 1], source_pe) == Some(
                    (#[trigger] events[i])@,
                ),
            forall|i: int| 0 <= i < events.len() ==> (#[trigger] events[i]).raw.wf(),
            forall|i: int| 0 <= i < events.len() ==> (#[trigger] events[i]).source_pe == source_pe,
            forall|j: int| 1 <= j < k ==> raw_event_of(schema, #[trigger] table[j]).is_some(),
        decreases rows.len() - k,
    {
        assert(table[k as int] == rows[k as int].deep_view());
        match parse_record(&schema, &rows[k]) {
            Some(raw) => {
                events.push(Event { source_pe, raw });
            },
            None => {
                return Err(LoadError::Schema { pe: source_pe, record: k });
            },
        }
        k = k + 1;
    }
    Ok(events)
}

/// The merged timeline of a run and what is known of its processes.
#[derive(Debug)]
pub struct ProfileData {
    /// All events, in the order of their start times.
    pub events: Vec<Event>,
    /// One more than the largest process number.
    pub pe_count: u32,
    /// The host that ran each process.
    pub pe_hostnames: HashMap<u32, String>,
    /// When the first event began.
    pub min_time: i64,
    /// When the last event ended.
    pub max_time: i64,
}

/// Whether `m` is the latest end of any event.
pub open spec fn is_max_end(events: Seq<Event>, m: i64) -> bool {
    &&& forall|i: int| 0 <= i < events.len() ==> (#[trigger] events[i]).raw.end_time() <= m
    &&& exists|i: int| 0 <= i < events.len() && (#[trigger] events[i]).raw.end_time() == m
}

/// Whether `n` is one more than the largest process number of any event.
pub open spec fn is_process_count(events: Seq<Event>, n: u32) -> bool {
    &&& forall|i: int| 0 <= i < events.len() ==> (#[trigger] events[i]).source_pe < n
    &&& exists|i: int| 0 <= i < events.len() && (#[trigger] events[i]).source_pe + 1 == n
}

/// The events of all logs, one log after the other.
pub open spec fn merged(logs: Seq<ProcessLog>) -> Seq<Event>
    decreases logs.len(),
{
    if logs.len() == 0 {
        Seq::empty()
    } else {
        merged(logs.drop_last()) + logs.last().events@
    }
}

/// The host of each process: what the first record of its log says. Of two
/// logs for one process the later counts.
pub open spec fn hosts_of(logs: Seq<ProcessLog>) -> Map<u32, Seq<char>>
    decreases logs.len(),
{
    if logs.len() == 0 {
        Map::empty()
    } else {
        let log = logs.last();
        hosts_of(logs.drop_last()).insert(log.pe, log.events[0].raw.extra.unwrap()@)
    }
}

/// What is wrong with a log, if anything: it is empty, or its first record
/// names no host.
pub open spec fn log_fault(log: ProcessLog) -> Option<LoadError> {
    if log.events.len() == 0 {
        Some(LoadError::EmptyFile { pe: log.pe })
    } else if log.events[0].raw.extra.is_none() {
        Some(LoadError::MissingHostname { pe: log.pe })
    } else {
        None
    }
}

/// A log is well formed when its process number leaves room for the count
/// of processes and each of its events is well formed and carries that
/// number.
pub open spec fn log_wf(log: ProcessLog) -> bool {
    &&& log.pe < u32::MAX
    &&& all_wf(log.events@)
    &&& forall|i: int| 0 <= i < log.events.len() ==> (#[trigger] log.events[i]).source_pe == log.pe
}

impl ProfileData {
    /// The hosts of the processes, as sequences of characters.
    pub open spec fn hosts(&self) -> Map<u32, Seq<char>> {
        self.pe_hostnames@.map_values(|name: String| name@)
    }

    /// The invariant of the store: the events are sorted by start time and
    /// well formed; `min_time` is the start of the first one and `max_time`
    /// the latest end; `pe_count` is one more than the largest process
    /// number; the host of every process is known. A store without events
    /// has one process and both times at zero.
    pub open spec fn wf(&self) -> bool {
        &&& sorted_by_time(self.events@)
        &&& all_wf(self.events@)
        &&& self.min_time <= self.max_time
        &&& forall|i: int|
            0 <= i < self.events.len() ==> self.pe_hostnames@.contains_key(
                (#[trigger] self.events[i]).source_pe,
            )
        &&& if self.events.len() == 0 {
            self.min_time == 0 && self.max_time == 0 && self.pe_count == 1
        } else {
            &&& self.min_time == self.events[0].raw.time
            &&& is_max_end(self.events@, self.max_time)
            &&& is_process_count(self.events@, self.pe_count)
        }
    }
}

/// Sequences with the same elements as multisets hold the same elements.
pub proof fn lemma_same_elements(a: Seq<Event>, b: Seq<Event>)
    requires
        a.to_multiset() == b.to_multiset(),
    ensures
        a.len() == b.len(),
        forall|i: int| 0 <= i < a.len() ==> b.contains(#[trigger] a[i]),
        forall|j: int| 0 <= j < b.len() ==> a.contains(#[trigger] b[j]),
{
    vstd::seq_lib::to_multiset_len(a);
    vstd::seq_lib::to_multiset_len(b);
    assert forall|i: int| 0 <= i < a.len() implies b.contains(#[trigger] a[i]) by {
        vstd::seq_lib::to_multiset_contains(a, a[i]);
        vstd::seq_lib::to_multiset_contains(b, a[i]);
    }
    assert forall|j: int| 0 <= j < b.len() implies a.contains(#[trigger] b[j]) by {
        vstd::seq_lib::to_multiset_contains(a, b[j]);
        vstd::seq_lib::to_multiset_contains(b, b[j]);
    }
}

impl Default for ProfileData {
    /// The store of a run without logs.
    fn default() -> (data: ProfileData)
        ensures
            data.wf(),
            data.events@ == Seq::<Event>::empty(),
            data.pe_hostnames@ == Map::<u32, String>::empty(),
    {
        ProfileData {
            events: Vec::new(),
            pe_count: 1,
            pe_hostnames: HashMap::new(),
            min_time: 0,
            max_time: 0,
        }
    }
}

/// Adding a log to the merged events adds its events behind them.
pub proof fn lemma_merged_step(logs: Seq<ProcessLog>, k: int)
    requires
        0 <= k < logs.len(),
    ensures
        merged(logs.subrange(0, k + 1)) == merged(logs.subrange(0, k)) + logs[k].events@,
        hosts_of(logs.subrange(0, k + 1)) == hosts_of(logs.subrange(0, k)).insert(
            logs[k].pe,
            logs[k].events[0].raw.extra.unwrap()@,
        ),
{
    assert(logs.subrange(0, k + 1).drop_last() =~= logs.subrange(0, k));
}

/// The latest end of any event, zero without events.
pub fn latest_end(events: &Vec<Event>) -> (m: i64)
    requires
        all_wf(events@),
    ensures
        events.len() == 0 ==> m == 0,
        events.len() > 0 ==> is_max_end(events@, m),
{
    if events.len() == 0 {
        return 0;
    }
    let mut m: i64 = events[0].raw.time + events[0].raw.duration;
    let mut i: usize = 1;
    while i < events.len()
        invariant
            1 <= i <= events.len(),
            all_wf(events@),
            forall|j: int| 0 <= j < i ==> (#[trigger] events[j]).raw.end_time() <= m,
            exists|j: int| 0 <= j < i && (#[trigger] events[j]).raw.end_time() == m,
        decreases events.len() - i,
    {
        let end: i64 = events[i].raw.time + events[i].raw.duration;
        if end > m {
            m = end;
        }
        i = i + 1;
    }
    m
}

impl ProfileData {
    /// Makes a store from events in any order: sorts them by start time,
    /// events that start together staying in their order, and takes the
    /// times from them. `max_pe` is the largest process number among them,
    /// zero if there is none.
    pub fn from_events(events: Vec<Event>, hostnames: HashMap<u32, String>, max_pe: u32) -> (data:
        ProfileData)
        requires
            all_wf(events@),
            max_pe < u32::MAX,
            forall|i: int| 0 <= i < events.len() ==> (#[trigger] events[i]).source_pe <= max_pe,
            forall|i: int|
                0 <= i < events.len() ==> hostnames@.contains_key((#[trigger] events[i]).source_pe),
            events.len() > 0 ==> exists|i: int|
                0 <= i < events.len() && (#[trigger] events[i]).source_pe == max_pe,
            events.len() == 0 ==> max_pe == 0,
        ensures
            data.wf(),
            is_stable_sort(data.events@, events@),
            data.pe_hostnames == hostnames,
            data.pe_count == max_pe + 1,
    {
        let ghost given = events@;
        let mut events = events;
        sort_by_time(&mut events);
        proof {
            lemma_same_elements(events@, given);
            assert forall|i: int| 0 <= i < events.len() implies (#[trigger] events[i]).raw.wf()
                && events[i].source_pe <= max_pe && hostnames@.contains_key(
                events[i].source_pe,
            ) by {
                let j = choose|j: int| 0 <= j < given.len() && given[j] == events[i];
                assert(given[j].raw.wf());
            }
            if given.len() > 0 {
                let w = choose|i: int| 0 <= i < given.len() && (#[trigger] given[i]).source_pe == max_pe;
                assert(events@.contains(given[w]));
                let v = choose|v: int| 0 <= v < events.len() && events[v] == given[w];
                assert(events[v].source_pe + 1 == max_pe + 1);
            }
        }
        let max_time: i64 = latest_end(&events);
        let min_time: i64 = if events.len() > 0 {
            events[0].raw.time
        } else {
            0
        };
        proof {
            if events.len() > 0 {
                assert(events[0].raw.wf());
                assert(events[0].raw.end_time() <= max_time);
            }
        }
        ProfileData { events, pe_count: max_pe + 1, pe_hostnames: hostnames, min_time, max_time }
    }

    /// Merges the logs of all processes into one store.
    ///
    /// The logs are taken in their order. The first one that is empty, or
    /// whose first record names no host, ends the load with its error.
    /// Otherwise the events of all logs are sorted by start time, events
    /// that start together staying in the order of the logs.
    #[verifier::rlimit(40)]
    pub fn from_logs(logs: Vec<ProcessLog>) -> (r: Result<ProfileData, LoadError>)
        requires
            forall|k: int| 0 <= k < logs.len() ==> log_wf(#[trigger] logs[k]),
        ensures
            match r {
                Ok(data) => {
                    &&& data.wf()
                    &&& forall|k: int| 0 <= k < logs.len() ==> log_fault(#[trigger] logs[k]).is_none()
                    &&& is_stable_sort(data.events@, merged(logs@))
                    &&& data.hosts() == hosts_of(logs@)
                },
                Err(e) => exists|k: int|
                    0 <= k < logs.len() && log_fault(#[trigger] logs[k]) == Some(e) && forall|j: int|
                        0 <= j < k ==> log_fault(#[trigger] logs[j]).is_none(),
            },
    {
        let ghost all_logs = logs@;
        let mut events: Vec<Event> = Vec::new();
        let mut hostnames: HashMap<u32, String> = HashMap::new();
        let mut max_pe: u32 = 0;
        assert(all_logs.subrange(0, 0) =~= Seq::<ProcessLog>::empty());
        assert(hostnames@.map_values(|name: String| name@) =~= Map::<u32, Seq<char>>::empty());
        for log in it: logs
            invariant
                it.seq() == all_logs,
                forall|k: int| 0 <= k < all_logs.len() ==> log_wf(#[trigger] all_logs[k]),
                events@ == merged(all_logs.subrange(0, it.index() as int)),
                hostnames@.map_values(|name: String| name@) == hosts_of(
                    all_logs.subrange(0, it.index() as int),
                ),
                forall|j: int| 0 <= j < it.index() ==> log_fault(#[trigger] all_logs[j]).is_none(),
                all_wf(events@),
                max_pe < u32::MAX,
                forall|i: int| 0 <= i < events.len() ==> (#[trigger] events[i]).source_pe <= max_pe,
                forall|i: int|
                    0 <= i < events.len() ==> hostnames@.contains_key(
                        (#[trigger] events[i]).source_pe,
                    ),
                it.index() > 0 ==> exists|i: int|
                    0 <= i < events.len() && (#[trigger] events[i]).source_pe == max_pe,
                it.index() == 0 ==> events.len() == 0 && max_pe == 0,
        {
            let ghost k = it.index() as int;
            let ghost seen = events@;
            let ghost hosts_before = hostnames@;
            assert(log == all_logs[k]);
            proof {
                lemma_merged_step(all_logs, k);
            }
            let ProcessLog { pe, events: mut log_events } = log;
            if log_events.len() == 0 {
                return Err(LoadError::EmptyFile { pe });
            }
            let host: String = match &log_events[0].raw.extra {
                Some(name) => name.clone(),
                None => {
                    return Err(LoadError::MissingHostname { pe });
                },
            };
            proof {
                broadcast use vstd::std_specs::hash::group_hash_axioms;

            }
            hostnames.insert(pe, host);
            if pe > max_pe {
                max_pe = pe;
            }
            let ghost added = log_events@;
            events.append(&mut log_events);
            proof {
                assert(events@ == seen + added);
                assert(hostnames@ == hosts_before.insert(pe, host));
                assert(hostnames@.map_values(|name: String| name@) =~= hosts_before.map_values(
                    |name: String| name@,
                ).insert(pe, host@));
                assert forall|i: int| 0 <= i < events.len() implies (#[trigger] events[i]).raw.wf()
                    && events[i].source_pe <= max_pe && hostnames@.contains_key(
                    events[i].source_pe,
                ) by {
                    if i < seen.len() {
                        assert(events[i] == seen[i]);
                    } else {
                        assert(events[i] == added[i - seen.len()]);
                    }
                }
                if pe == max_pe {
                    assert(events[seen.len() as int] == added[0]);
                } else {
                    let w = choose|i: int| 0 <= i < seen.len() && (#[trigger] seen[i]).source_pe == max_pe;
                    assert(events[w] == seen[w]);
                }
            }
        }
        assert(all_logs.subrange(0, all_logs.len() as int) =~= all_logs);
        Ok(Self::from_events(events, hostnames, max_pe))
    }
}

/// A file as it was found: its name and its bytes.
#[derive(Debug)]
pub struct SourceFile {
    pub name: String,
    pub bytes: Vec<u8>,
}

/// Tests a log for [`log_fault`].
pub fn check_log(log: &ProcessLog) -> (fault: Option<LoadError>)
    ensures
        fault == log_fault(*log),
{
    if log.events.len() == 0 {
        Some(LoadError::EmptyFile { pe: log.pe })
    } else if log.events[0].raw.extra.is_none() {
        Some(LoadError::MissingHostname { pe: log.pe })
    } else {
        None
    }
}

/// Whether `log` is what the file holds for process `pe`: the file splits
/// into rows, and the rows behind the header stand for the events of the
/// log, which is neither empty nor without a host.
pub open spec fn is_log_of(file: SourceFile, pe: u32, log: ProcessLog) -> bool {
    &&& log.pe == pe
    &&& csv_rows(file.bytes@).is_some()
    &&& events_of_rows(csv_rows(file.bytes@).unwrap(), pe, log.events@)
    &&& log_fault(log).is_none()
    &&& log_wf(log)
}

/// Whether `e` is the error with which the file fails to load: its bytes do
/// not split into rows, a row breaks the schema, or the log is empty or
/// names no host.
pub open spec fn is_file_error(file: SourceFile, e: LoadError) -> bool {
    match file_process(encode_utf8(file.name@)) {
        None => false,
        Some(pe) => match csv_rows(file.bytes@) {
            None => e matches LoadError::Schema { pe: p, .. } && p == pe,
            Some(rows) => match e {
                LoadError::Io => false,
                LoadError::Schema { pe: p, record } => p == pe && first_bad_row(rows, record as int),
                LoadError::EmptyFile { pe: p } => p == pe && rows.len() <= 1 && !first_bad_row(
                    rows,
                    0,
                ),
                LoadError::MissingHostname { pe: p } => {
                    &&& p == pe
                    &&& rows.len() >= 2
                    &&& schema_of(rows[0]).is_some()
                    &&& forall|j: int|
                        1 <= j < rows.len() ==> raw_event_of(
                            schema_of(rows[0]).unwrap(),
                            #[trigger] rows[j],
                        ).is_some()
                    &&& raw_event_of(schema_of(rows[0]).unwrap(), rows[1]).unwrap().extra.is_none()
                },
            },
        },
    }
}

/// Whether the file loads: its name is not that of a log, or it holds one.
pub open spec fn is_sound(file: SourceFile) -> bool {
    match file_process(encode_utf8(file.name@)) {
        None => true,
        Some(pe) => exists|log: ProcessLog| is_log_of(file, pe, log),
    }
}

/// Whether `logs` are what the files hold, one log for each file whose name
/// is that of a log, in the order of the files.
pub open spec fn logs_of_files(files: Seq<SourceFile>, logs: Seq<ProcessLog>) -> bool
    decreases files.len(),
{
    if files.len() == 0 {
        logs.len() == 0
    } else {
        match file_process(encode_utf8(files.last().name@)) {
            None => logs_of_files(files.drop_last(), logs),
            Some(pe) => logs.len() > 0 && is_log_of(files.last(), pe, logs.last()) && logs_of_files(
                files.drop_last(),
                logs.drop_last(),
            ),
        }
    }
}

/// Reads the log that a file holds. A file whose name is not that of a log
/// holds none.
#[verifier::rlimit(40)]
pub fn read_log(file: &SourceFile) -> (r: Result<Option<ProcessLog>, LoadError>)
    ensures
        match r {
            Ok(None) => file_process(encode_utf8(file.name@)).is_none(),
            Ok(Some(log)) => file_process(encode_utf8(file.name@)).is_some() && is_log_of(
                *file,
                file_process(encode_utf8(file.name@)).unwrap(),
                log,
            ),
            Err(e) => is_file_error(*file, e),
        },
{
    let pe: u32 = match parse_file_name(file.name.as_str()) {
        Some(pe) => pe,
        None => {
            return Ok(None);
        },
    };
    let rows: Vec<Vec<String>> = match read_rows(file.bytes.as_slice()) {
        Ok(rows) => rows,
        Err(error) => {
            return Err(LoadError::Schema { pe, record: error_row(&error) });
        },
    };
    let ghost table = rows.deep_view();
    let events: Vec<Event> = match load_file(&rows, pe) {
        Ok(events) => events,
        Err(e) => {
            return Err(e);
        },
    };
    let log = ProcessLog { pe, events };
    match check_log(&log) {
        Some(fault) => {
            proof {
                if table.len() >= 2 {
                    let schema = schema_of(table[0]).unwrap();
                    assert(row_event(schema, table[1], pe) == Some(log.events[0]@));
                    assert forall|j: int| 1 <= j < table.len() implies raw_event_of(
                        schema,
                        #[trigger] table[j],
                    ).is_some() by {
                        assert(row_event(schema, table[j - 1 + 1], pe) == Some(log.events[j - 1]@));
                    }
                }
            }
            Err(fault)
        },
        None => Ok(Some(log)),
    }
}

impl ProfileData {
    /// Loads the store from the files of a directory. Files whose names are
    /// not those of logs are passed over. The first log that fails ends the
    /// load with its error.
    #[verifier::rlimit(40)]
    pub fn load(files: &Vec<SourceFile>) -> (r: Result<ProfileData, LoadError>)
        ensures
            match r {
                Ok(data) => data.wf() && exists|logs: Seq<ProcessLog>|
                    {
                        &&& #[trigger] logs_of_files(files@, logs)
                        &&& is_stable_sort(data.events@, merged(logs))
                        &&& data.hosts() == hosts_of(logs)
                    },
                Err(e) => exists|k: int|
                    0 <= k < files.len() && is_file_error(#[trigger] files[k], e) && forall|j: int|
                        0 <= j < k ==> is_sound(#[trigger] files[j]),
            },
    {
        let mut logs: Vec<ProcessLog> = Vec::new();
        let mut i: usize = 0;
        assert(files@.subrange(0, 0) =~= Seq::<SourceFile>::empty());
        while i < files.len()
            invariant
                i <= files.len(),
                logs_of_files(files@.subrange(0, i as int), logs@),
                forall|j: int| 0 <= j < i ==> is_sound(#[trigger] files[j]),
                forall|k: int|
                    0 <= k < logs.len() ==> log_wf(#[trigger] logs[k]) && log_fault(logs[k]).is_none(),
            decreases files.len() - i,
        {
            let ghost before = logs@;
            proof {
                assert(files@.subrange(0, i + 1).drop_last() =~= files@.subrange(0, i as int));
                assert(files@.subrange(0, i + 1).last() == files[i as int]);
            }
            match read_log(&files[i]) {
                Ok(Some(log)) => {
                    assert(is_sound(files[i as int])) by {
                        assert(is_log_of(
                            files[i as int],
                            file_process(encode_utf8(files[i as int].name@)).unwrap(),
                            log,
                        ));
                    }
                    logs.push(log);
                    assert(logs@.drop_last() =~= before);
                },
                Ok(None) => {},
                Err(e) => {
                    return Err(e);
                },
            }
            i = i + 1;
        }
        assert(files@.subrange(0, files.len() as int) =~= files@);
        let ghost all = logs@;
        match Self::from_logs(logs) {
            Ok(data) => Ok(data),
            Err(e) => {
                proof {
                    let k = choose|k: int| 0 <= k < all.len() && log_fault(#[trigger] all[k]) == Some(e);
                    assert(log_fault(all[k]).is_none());
                }
                Err(e)
            },
        }
    }
}

} // verus!
