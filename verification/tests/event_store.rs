use pe_timeline::data::{
    check_log, latest_end, load_file, parse_file_name, read_log, LoadError, ProcessLog, ProfileData,
    SourceFile,
};
use pe_timeline::event::{Event, RawEvent};
use pe_timeline::schema::{find_column, parse_record, ByteColumns, Schema};
use std::collections::HashMap;

const HEADER: &str = "Time,Function,Duration_Sec,Target_PE,Bytes_RX,Bytes_TX,Stacktrace,Extra,Symboltrace";

fn file(name: &str, text: &str) -> SourceFile {
    SourceFile { name: String::from(name), bytes: text.as_bytes().to_vec() }
}

fn row(fields: &[&str]) -> Vec<String> {
    fields.iter().map(|f| String::from(*f)).collect()
}

fn log_of(lines: &[&str]) -> String {
    let mut text = String::from(HEADER);
    for line in lines {
        text.push('\n');
        text.push_str(line);
    }
    text.push('\n');
    text
}

fn event(source_pe: u32, time: i64, duration: i64, function: &str, extra: Option<&str>) -> Event {
    Event {
        source_pe,
        raw: RawEvent {
            time,
            function: String::from(function),
            duration,
            target_pe: -1,
            bytes_rx: 0,
            bytes_tx: 0,
            stacktrace: String::new(),
            extra: extra.map(String::from),
            symboltrace: None,
        },
    }
}

#[test]
fn names_of_logs() {
    assert_eq!(parse_file_name("pperf.0.csv"), Some(0));
    assert_eq!(parse_file_name("pperf.17.csv"), Some(17));
    assert_eq!(parse_file_name("pperf.007.csv"), Some(7));
    assert_eq!(parse_file_name("pperf.+3.csv"), Some(3));
    assert_eq!(parse_file_name("pperf.4294967294.csv"), Some(4_294_967_294));
}

#[test]
fn names_of_other_files() {
    assert_eq!(parse_file_name("pperf.4294967295.csv"), None);
    assert_eq!(parse_file_name("pperf.4294967296.csv"), None);
    assert_eq!(parse_file_name("pperf.csv"), None);
    assert_eq!(parse_file_name("pperf..csv"), None);
    assert_eq!(parse_file_name("pperf.1.2.csv"), None);
    assert_eq!(parse_file_name("pperf.1.txt"), None);
    assert_eq!(parse_file_name("perf.1.csv"), None);
    assert_eq!(parse_file_name("pperf.-1.csv"), None);
    assert_eq!(parse_file_name("pperf.x.csv"), None);
    assert_eq!(parse_file_name("xpperf.1.csv"), None);
    assert_eq!(parse_file_name("pperf.1.csv.bak"), None);
    assert_eq!(parse_file_name("PPERF.1.CSV"), None);
    assert_eq!(parse_file_name(""), None);
    assert_eq!(parse_file_name("pperf.\u{e9}.csv"), None);
}

#[test]
fn columns_are_found_by_name() {
    let header = row(&["Time", "Extra", "Function", "Extra"]);
    assert_eq!(find_column(&header, "Time"), Some(0));
    assert_eq!(find_column(&header, "Extra"), Some(1));
    assert_eq!(find_column(&header, "Function"), Some(2));
    assert_eq!(find_column(&header, "time"), None);
    assert_eq!(find_column(&header, "Stacktrace"), None);
}

#[test]
fn the_schema_of_a_directed_log() {
    let header: Vec<String> = HEADER.split(',').map(String::from).collect();
    let schema = Schema::from_header(&header).unwrap();
    assert_eq!(schema.time, 0);
    assert_eq!(schema.function, 1);
    assert_eq!(schema.duration, 2);
    assert_eq!(schema.target, 3);
    assert!(matches!(schema.bytes, ByteColumns::Directed { rx: 4, tx: 5 }));
    assert_eq!(schema.stacktrace, 6);
    assert_eq!(schema.extra, Some(7));
    assert_eq!(schema.symboltrace, Some(8));
}

#[test]
fn the_schema_of_an_older_log() {
    let header = row(&["Stacktrace", "Size_Bytes", "Target_PE", "Duration_Sec", "Function", "Time", "Note"]);
    let schema = Schema::from_header(&header).unwrap();
    assert_eq!(schema.time, 5);
    assert!(matches!(schema.bytes, ByteColumns::Undirected { size: 1 }));
    assert_eq!(schema.extra, None);
    assert_eq!(schema.symboltrace, None);
    // One of the directed columns alone does not make a directed log.
    let header = row(&["Time", "Function", "Duration_Sec", "Target_PE", "Bytes_RX", "Size_Bytes", "Stacktrace"]);
    assert!(matches!(Schema::from_header(&header).unwrap().bytes, ByteColumns::Undirected { size: 5 }));
}

#[test]
fn a_header_that_lacks_a_column_has_no_schema() {
    for missing in ["Time", "Function", "Duration_Sec", "Target_PE", "Stacktrace", "Bytes_TX"] {
        let header: Vec<String> = HEADER.split(',').filter(|c| *c != missing).map(String::from).collect();
        assert!(Schema::from_header(&header).is_none());
    }
    assert!(Schema::from_header(&Vec::new()).is_none());
}

#[test]
fn a_row_becomes_a_record() {
    let header: Vec<String> = HEADER.split(',').map(String::from).collect();
    let schema = Schema::from_header(&header).unwrap();
    let record = row(&["1.5", "shmem_put", "0.000002", "3", "10", "20", "0x1|0x2", "node07", "main|work"]);
    let raw = parse_record(&schema, &record).unwrap();
    assert_eq!(raw.time, 1_500_000_000);
    assert_eq!(raw.function, "shmem_put");
    assert_eq!(raw.duration, 2_000);
    assert_eq!(raw.target_pe, 3);
    assert_eq!(raw.bytes_rx, 10);
    assert_eq!(raw.bytes_tx, 20);
    assert_eq!(raw.stacktrace, "0x1|0x2");
    assert_eq!(raw.extra.as_deref(), Some("node07"));
    assert_eq!(raw.symboltrace.as_deref(), Some("main|work"));
}

#[test]
fn empty_optional_fields_are_absent() {
    let header: Vec<String> = HEADER.split(',').map(String::from).collect();
    let schema = Schema::from_header(&header).unwrap();
    let record = row(&["0", "f", "0", "-1", "0", "0", "", "", ""]);
    let raw = parse_record(&schema, &record).unwrap();
    assert_eq!(raw.extra, None);
    assert_eq!(raw.symboltrace, None);
    assert_eq!(raw.stacktrace, "");
    assert_eq!(raw.target_pe, -1);
}

#[test]
fn an_older_row_counts_its_bytes_as_sent() {
    let header = row(&["Time", "Function", "Duration_Sec", "Target_PE", "Size_Bytes", "Stacktrace"]);
    let schema = Schema::from_header(&header).unwrap();
    let raw = parse_record(&schema, &row(&["2", "put", "1", "1", "4096", "s"])).unwrap();
    assert_eq!(raw.bytes_tx, 4096);
    assert_eq!(raw.bytes_rx, 0);
    assert_eq!(raw.extra, None);
}

#[test]
fn rows_that_break_the_schema() {
    let header: Vec<String> = HEADER.split(',').map(String::from).collect();
    let schema = Schema::from_header(&header).unwrap();
    let good = ["1.5", "f", "0.5", "3", "10", "20", "s", "h", "t"];
    assert!(parse_record(&schema, &row(&good)).is_some());
    for (column, bad) in [
        (0, "soon"),
        (0, ""),
        (0, "1e"),
        (2, "-0.5"),
        (2, "long"),
        (3, "1.5"),
        (3, "2147483648"),
        (4, "-1"),
        (5, "many"),
        (5, "18446744073709551616"),
    ] {
        let mut fields = good;
        fields[column] = bad;
        assert!(parse_record(&schema, &row(&fields)).is_none());
    }
    // A row that is too short for a column that must be there.
    assert!(parse_record(&schema, &row(&good[..6])).is_none());
    // A row that lacks the optional columns only.
    assert!(parse_record(&schema, &row(&good[..7])).is_some());
    // An event that would end after the last instant.
    let mut fields = good;
    fields[0] = "9223372036";
    fields[2] = "1";
    assert!(parse_record(&schema, &row(&fields)).is_none());
}

#[test]
fn the_rows_of_a_log_become_its_events() {
    let rows = vec![
        HEADER.split(',').map(String::from).collect(),
        row(&["0.5", "init", "0.25", "-1", "0", "0", "s", "node01", ""]),
        row(&["1.5", "put", "0", "2", "0", "64", "s", "", "a|b"]),
    ];
    let events = load_file(&rows, 9).unwrap();
    assert_eq!(events.len(), 2);
    assert_eq!(events[0].source_pe, 9);
    assert_eq!(events[0].raw.time, 500_000_000);
    assert_eq!(events[0].raw.duration, 250_000_000);
    assert_eq!(events[0].raw.extra.as_deref(), Some("node01"));
    assert_eq!(events[1].source_pe, 9);
    assert_eq!(events[1].raw.function, "put");
    assert_eq!(events[1].raw.bytes_tx, 64);
    assert_eq!(events[1].raw.symboltrace.as_deref(), Some("a|b"));
    assert!(load_file(&Vec::new(), 9).unwrap().is_empty());
    assert!(load_file(&rows[..1].to_vec(), 9).unwrap().is_empty());
}

#[test]
fn the_first_bad_row_is_named() {
    let rows = vec![
        HEADER.split(',').map(String::from).collect(),
        row(&["0.5", "init", "0.25", "-1", "0", "0", "s", "node01", ""]),
        row(&["soon", "put", "0", "2", "0", "64", "s", "", ""]),
        row(&["later", "put", "0", "2", "0", "64", "s", "", ""]),
    ];
    assert_eq!(load_file(&rows, 4).unwrap_err(), LoadError::Schema { pe: 4, record: 2 });
    let rows = vec![row(&["Time", "Function"]), row(&["0.5", "init"])];
    assert_eq!(load_file(&rows, 4).unwrap_err(), LoadError::Schema { pe: 4, record: 0 });
}

#[test]
fn a_log_is_read_from_the_bytes_of_its_file() {
    let text = log_of(&["  0.5 , init ,0.25,-1,0,0,\"a,b\", node01 ,", "1.5,put,0,2,0,64,s,,x|y"]);
    let log = read_log(&file("pperf.3.csv", &text)).unwrap().unwrap();
    assert_eq!(log.pe, 3);
    assert_eq!(log.events.len(), 2);
    assert_eq!(log.events[0].raw.time, 500_000_000);
    assert_eq!(log.events[0].raw.function, "init");
    assert_eq!(log.events[0].raw.stacktrace, "a,b");
    assert_eq!(log.events[0].raw.extra.as_deref(), Some("node01"));
    assert_eq!(log.events[1].raw.symboltrace.as_deref(), Some("x|y"));
    assert_eq!(check_log(&log), None);
}

#[test]
fn files_that_are_no_logs_are_passed_over() {
    assert!(read_log(&file("notes.txt", "anything")).unwrap().is_none());
    assert!(read_log(&file("pperf.x.csv", "anything")).unwrap().is_none());
}

#[test]
fn a_log_that_does_not_split_into_rows_breaks_the_schema() {
    // The second row has fewer fields than the first.
    let text = format!("{}\n1,2,3\n", HEADER);
    assert!(matches!(
        read_log(&file("pperf.2.csv", &text)).unwrap_err(),
        LoadError::Schema { pe: 2, .. }
    ));
    // Bytes that are no text.
    let mut bytes = log_of(&["0,init,0,-1,0,0,s,host,"]).into_bytes();
    bytes.extend_from_slice(&[0xff, 0xfe, b',', b'1', b',', b'1', b',', b'1', b',', b'1', b',', b'1', b',', b's', b',', b',', b'\n']);
    let broken = SourceFile { name: String::from("pperf.2.csv"), bytes };
    assert!(matches!(read_log(&broken).unwrap_err(), LoadError::Schema { pe: 2, .. }));
}

#[test]
fn an_empty_log_is_an_error() {
    assert_eq!(read_log(&file("pperf.5.csv", "")).unwrap_err(), LoadError::EmptyFile { pe: 5 });
    let header_only = format!("{}\n", HEADER);
    assert_eq!(read_log(&file("pperf.5.csv", &header_only)).unwrap_err(), LoadError::EmptyFile { pe: 5 });
    assert_eq!(
        check_log(&ProcessLog { pe: 8, events: Vec::new() }),
        Some(LoadError::EmptyFile { pe: 8 })
    );
}

#[test]
fn a_log_whose_first_record_names_no_host_is_an_error() {
    let text = log_of(&["0,init,0,-1,0,0,s,,", "1,put,0,2,0,64,s,node01,"]);
    assert_eq!(read_log(&file("pperf.6.csv", &text)).unwrap_err(), LoadError::MissingHostname { pe: 6 });
    let log = ProcessLog { pe: 6, events: vec![event(6, 0, 0, "init", None)] };
    assert_eq!(check_log(&log), Some(LoadError::MissingHostname { pe: 6 }));
}

#[test]
fn a_bad_row_in_a_file_is_named() {
    let text = log_of(&["0,init,0,-1,0,0,s,host,", "1,put,zero,2,0,64,s,,"]);
    assert_eq!(read_log(&file("pperf.6.csv", &text)).unwrap_err(), LoadError::Schema { pe: 6, record: 2 });
    assert_eq!(
        read_log(&file("pperf.6.csv", "Time,Function\n1,f\n")).unwrap_err(),
        LoadError::Schema { pe: 6, record: 0 }
    );
}

#[test]
fn logs_are_merged_in_the_order_of_time() {
    let files = vec![
        file("pperf.1.csv", &log_of(&["0.3,init,0.1,-1,0,0,s,beta,", "0.7,put,0.5,0,0,8,s,,"])),
        file("readme.md", "not a log"),
        file("pperf.0.csv", &log_of(&["0.2,init,0.1,-1,0,0,s,alpha,", "0.5,get,0.1,1,8,0,s,,", "0.9,quit,0,-1,0,0,s,,"])),
    ];
    let data = ProfileData::load(&files).unwrap();
    let order: Vec<(u32, i64)> = data.events.iter().map(|e| (e.source_pe, e.raw.time)).collect();
    assert_eq!(
        order,
        vec![(0, 200_000_000), (1, 300_000_000), (0, 500_000_000), (1, 700_000_000), (0, 900_000_000)]
    );
    assert_eq!(data.min_time, 200_000_000);
    // The event that starts at 0.7 runs for half a second: it ends last.
    assert_eq!(data.max_time, 1_200_000_000);
    assert_eq!(data.pe_count, 2);
    assert_eq!(data.pe_hostnames.len(), 2);
    assert_eq!(data.pe_hostnames[&0], "alpha");
    assert_eq!(data.pe_hostnames[&1], "beta");
}

#[test]
fn the_store_keeps_its_invariants() {
    let files = vec![
        file("pperf.4.csv", &log_of(&["5,init,1,-1,0,0,s,d,", "5,a,0,-1,0,0,s,,", "9,b,2,-1,0,0,s,,"])),
        file("pperf.2.csv", &log_of(&["7,init,9,-1,0,0,s,b,", "1,early,0,-1,0,0,s,,"])),
    ];
    let data = ProfileData::load(&files).unwrap();
    assert!(data.events.windows(2).all(|w| w[0].raw.time <= w[1].raw.time));
    assert_eq!(data.min_time, data.events[0].raw.time);
    assert_eq!(data.max_time, data.events.iter().map(|e| e.raw.time + e.raw.duration).max().unwrap());
    assert_eq!(data.pe_count, 1 + data.events.iter().map(|e| e.source_pe).max().unwrap());
    assert!(data.events.iter().all(|e| e.source_pe < data.pe_count));
    assert!(data.min_time <= data.max_time);
    assert_eq!(data.pe_count, 5);
    assert_eq!(data.max_time, 16_000_000_000);
}

#[test]
fn events_that_start_together_stay_in_the_order_of_the_logs() {
    let logs = vec![
        ProcessLog { pe: 2, events: vec![event(2, 10, 0, "a", Some("h2")), event(2, 10, 0, "b", None), event(2, 5, 0, "c", None)] },
        ProcessLog { pe: 0, events: vec![event(0, 10, 0, "d", Some("h0")), event(0, 5, 0, "e", None)] },
    ];
    let data = ProfileData::from_logs(logs).unwrap();
    let order: Vec<&str> = data.events.iter().map(|e| e.raw.function.as_str()).collect();
    assert_eq!(order, vec!["c", "e", "a", "b", "d"]);
    assert_eq!(data.pe_count, 3);
}

#[test]
fn the_first_faulty_log_ends_the_load() {
    let logs = vec![
        ProcessLog { pe: 0, events: vec![event(0, 1, 0, "a", Some("h"))] },
        ProcessLog { pe: 1, events: vec![event(1, 1, 0, "a", None)] },
        ProcessLog { pe: 2, events: Vec::new() },
    ];
    assert_eq!(ProfileData::from_logs(logs).unwrap_err(), LoadError::MissingHostname { pe: 1 });
    let files = vec![
        file("pperf.0.csv", &log_of(&["0,init,0,-1,0,0,s,h,"])),
        file("pperf.1.csv", ""),
        file("pperf.2.csv", "Time\n1\n"),
    ];
    assert_eq!(ProfileData::load(&files).unwrap_err(), LoadError::EmptyFile { pe: 1 });
}

#[test]
fn a_store_without_logs_is_empty() {
    let data = ProfileData::load(&Vec::new()).unwrap();
    assert!(data.events.is_empty());
    assert_eq!((data.min_time, data.max_time, data.pe_count), (0, 0, 1));
    assert!(data.pe_hostnames.is_empty());
    let data = ProfileData::load(&vec![file("other.csv", "x")]).unwrap();
    assert!(data.events.is_empty());
    let data = ProfileData::from_events(Vec::new(), HashMap::new(), 0);
    assert_eq!((data.min_time, data.max_time, data.pe_count), (0, 0, 1));
}

#[test]
fn of_two_logs_for_one_process_the_later_names_the_host() {
    let files = vec![
        file("pperf.1.csv", &log_of(&["0,init,0,-1,0,0,s,first,"])),
        file("pperf.01.csv", &log_of(&["1,init,0,-1,0,0,s,second,"])),
    ];
    let data = ProfileData::load(&files).unwrap();
    assert_eq!(data.events.len(), 2);
    assert_eq!(data.pe_hostnames[&1], "second");
    assert_eq!(data.pe_count, 2);
}

#[test]
fn the_latest_end_is_not_always_that_of_the_last_event() {
    let events = vec![event(0, 1, 100, "long", None), event(0, 2, 3, "short", None)];
    assert_eq!(latest_end(&events), 101);
    assert_eq!(latest_end(&Vec::new()), 0);
    let events = vec![event(0, -50, 10, "a", None), event(0, -45, 1, "b", None)];
    assert_eq!(latest_end(&events), -40);
}

#[test]
fn the_io_error_is_for_callers_that_read_files() {
    let e = LoadError::Io;
    assert_ne!(e, LoadError::EmptyFile { pe: 0 });
    assert_eq!(e, LoadError::Io);
}

#[test]
fn the_default_store_is_empty() {
    let data = ProfileData::default();
    assert!(data.events.is_empty());
    assert!(data.pe_hostnames.is_empty());
    assert_eq!((data.min_time, data.max_time, data.pe_count), (0, 0, 1));
}
