use chrono::{TimeZone, Utc};
use optimizer::genome::Optimization;
use optimizer::log::{last_project, parse_log, prepare_state, process_log, LogEntry, LogError, LogKind, LogNode};
use optimizer::parse_tree::parse;
use optimizer::tree::NodeRef;

fn ts(y: i32, mo: u32, d: u32, h: u32, mi: u32, s: u32) -> i64 {
    Utc.with_ymd_and_hms(y, mo, d, h, mi, s).unwrap().timestamp()
}

fn context() -> Optimization {
    let (tree, root) = parse("project#Uew2Y: spacemonkey\n    task#5Frk3: add setting\nproject#abcde: other\n").unwrap();
    Optimization::new(0, 100, tree, root)
}

#[test]
fn reads_an_activation_line() {
    let opt = context();
    let line = "2014-12-17 14:55:21 Wednesday - activation - [\"life#00000\", \"project#Uew2Y: spacemonkey\", \"task#5Frk3: add setting to restrict uploaded files\"]";
    let e = LogEntry::from_line(&opt.tree, line).unwrap();
    assert_eq!(e.time, ts(2014, 12, 17, 14, 55, 21));
    assert_eq!(e.kind, LogKind::Activation);
    assert_eq!(e.nodes, vec![LogNode::Exists(NodeRef(3)), LogNode::Exists(NodeRef(1)), LogNode::Exists(NodeRef(0))]);
    assert_eq!(last_project(&opt.tree, &e), Some(NodeRef(1)));
}

#[test]
fn unknown_kinds_and_gone_nodes() {
    let opt = context();
    let line = "2014-12-17 14:55:21 Wednesday - created - [\"task#zzzzz: gone\"]";
    let e = LogEntry::from_line(&opt.tree, line).unwrap();
    assert_eq!(e.kind, LogKind::Unknown);
    assert_eq!(e.nodes, vec![LogNode::Gone]);
    assert_eq!(last_project(&opt.tree, &e), None);
}

#[test]
fn bad_log_lines_are_refused() {
    let opt = context();
    let t = &opt.tree;
    assert_eq!(LogEntry::from_line(t, "2014-12-17 14:55:21 Wednesday - activation").unwrap_err(), LogError::Segments);
    assert_eq!(LogEntry::from_line(t, "2014-12-17 Wednesday - activation - []").unwrap_err(), LogError::Date);
    assert_eq!(LogEntry::from_line(t, "2014-12-17 14:55:21 Wednesday - activation - [1]").unwrap_err(), LogError::NodeList);
    assert_eq!(LogEntry::from_line(t, "2014-12-17 14:55:21 Wednesday - activation - [\"  x#abcde\"]").unwrap_err(), LogError::NodeLine);
    assert_eq!(LogEntry::from_line(t, "2014-12-17 14:55:21 Wednesday - activation - [\"    x#abcde\"]").unwrap_err(), LogError::Indented);
    assert_eq!(LogEntry::from_line(t, "2014-12-17 14:55:21 Wednesday - activation - [\"@x\"]").unwrap_err(), LogError::Metadata);
    assert_eq!(LogEntry::from_line(t, "2014-12-17 14:55:21 Wednesday - activation - [\"x: y\"]").unwrap_err(), LogError::MissingId);
    match parse_log(t, "2014-12-17 14:55:21 Wednesday - activation - []\nbroken\n") {
        Ok(_) => panic!("expected an error"),
        Err(e) => assert!(e.starts_with("Line 2: ")),
    }
}

#[test]
fn focus_history_from_activations() {
    let opt = context();
    let log = [
        "2014-12-17 14:00:00 Wednesday - activation - [\"life#00000\", \"project#Uew2Y: a\", \"task#5Frk3: b\"]\n",
        "2014-12-17 14:10:00 Wednesday - created - [\"life#00000\"]\n",
        "2014-12-17 14:30:00 Wednesday - activation - [\"life#00000\", \"project#abcde: c\"]\n",
        "2014-12-17 15:00:00 Wednesday - activation - [\"life#00000\"]\n",
    ]
    .concat();
    let entries = parse_log(&opt.tree, &log).unwrap();
    assert_eq!(entries.len(), 4);
    let state = prepare_state(&entries, &opt);
    assert_eq!(state.nodestates[1], 30 * 60);
    assert_eq!(state.nodestates[2], 30 * 60);
    assert_eq!(state.total_time_working, 60 * 60);
    let again = process_log(&opt, &log).unwrap();
    assert_eq!(again.nodestates, state.nodestates);
}

#[test]
fn log_errors_name_the_line() {
    let opt = context();
    match parse_log(&opt.tree, "2014-12-17 14:55:21 Wednesday - activation - []\nbroken\n") {
        Ok(_) => panic!("expected an error"),
        Err(e) => assert_eq!(e, "Line 2: Wrong number of segments"),
    }
}
