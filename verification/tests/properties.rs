use procwatch::process::{make_process, make_process_map, ParseError, Process, ProcessMap};
use procwatch::query::{make_query_element, query_from_elements, Query};
use procwatch::schedule::elapsed_minute;

#[test]
fn command_round_trip_normalizes_spacing() {
    let (_, first) = make_process("11111 ttys000 0:00.00 sleep   30   x").unwrap();
    assert_eq!("sleep 30 x", first.command);
    let rebuilt = format!("11111 ttys000 0:00.00 {}", first.command);
    let (_, second) = make_process(&rebuilt).unwrap();
    assert_eq!(first.command, second.command);
}

#[test]
fn all_absent_query_is_invalid() {
    let query = Query::new(None, None, None);
    assert!(!query.is_valid());
}

#[test]
fn one_present_predicate_makes_query_valid() {
    assert!(Query::new(Some(String::from("c")), None, None).is_valid());
    assert!(Query::new(None, Some(1), None).is_valid());
    assert!(Query::new(None, None, Some(String::from("t"))).is_valid());
}

#[test]
fn out_of_range_pid_is_normalized_away() {
    let query = Query::new(None, Some(100000), None);
    assert!(query.pid.is_none());
    assert!(!query.is_valid());
    let kept = Query::new(None, Some(99999), None);
    assert_eq!(99999, kept.pid.unwrap());
}

#[test]
fn render_is_stable_and_lists_present_predicates_only() {
    let query = Query::new(Some(String::from("cmd")), None, None);
    assert_eq!("(command: cmd )", query.make_str());
    assert_eq!(query.make_str(), query.make_str());
    let empty = Query::new(None, None, None);
    assert_eq!("()", empty.make_str());
}

#[test]
fn empty_snapshot_matches_nothing() {
    let by_pid = Query::new(None, Some(11111), None);
    assert!(!by_pid.is_found(ProcessMap::new()));
    let by_command = Query::new(Some(String::from("ps")), None, None);
    assert!(!by_command.is_found(ProcessMap::new()));
    let by_tty = Query::new(None, None, Some(String::from("ttys000")));
    assert!(!by_tty.is_found(ProcessMap::new()));
}

#[test]
fn command_predicate_is_a_prefix_match() {
    let query = Query::new(Some(String::from("ps")), None, None);
    let mut map = ProcessMap::new();
    map.insert(
        String::from("ttys001"),
        vec![Process::new(11111, String::from("pserver"))],
    );
    assert!(query.is_found(map));
}

#[test]
fn tty_predicate_needs_an_occupied_terminal() {
    let query = Query::new(None, None, Some(String::from("ttys001")));
    assert!(query.is_matched(
        "ttys001",
        vec![Process::new(11111, String::from("sleep 30"))].as_ref()
    ));
    let none: Vec<Process> = vec![];
    assert!(!query.is_matched("ttys001", none.as_ref()));
    assert!(!query.is_matched(
        "ttys000",
        vec![Process::new(11111, String::from("sleep 30"))].as_ref()
    ));
}

#[test]
fn own_process_is_excluded() {
    let text = "11111 ttys000 0:00:00 sleep 30";
    let map = make_process_map(text, 11111).unwrap();
    assert_eq!(0, map.len());
}

#[test]
fn shell_placeholders_are_excluded() {
    let bash = make_process_map("11111 ttys000 0:00:00 -bash", 99998).unwrap();
    assert_eq!(0, bash.len());
    let zsh = make_process_map("11111 ttys000 0:00:00 -zsh", 99998).unwrap();
    assert_eq!(0, zsh.len());
}

#[test]
fn end_to_end_snapshot_shape() {
    let text = "  PID TTY TIME CMD\n11111 ttys000 0:00:00 -bash\n11112 ttys000 0:00:00 ps\n11113 ttys001 0:00:00 -bash";
    let map = make_process_map(text, 99998).unwrap();
    assert_eq!(1, map.len());
    let group = map.get("ttys000").unwrap();
    assert_eq!(1, group.len());
    assert_eq!(11112, group.first().unwrap().pid);
    assert_eq!("ps", group.first().unwrap().command);
    assert!(map.get("ttys001").is_none());
}

#[test]
fn end_to_end_pid_match() {
    let text = "  PID TTY TIME CMD\n11111 ttys000 0:00:00 -bash\n11112 ttys000 0:00:00 ps\n11113 ttys001 0:00:00 -bash";
    let found = Query::new(None, Some(11112), None);
    assert!(found.is_found(make_process_map(text, 99998).unwrap()));
    let gone = Query::new(None, Some(99999), None);
    assert!(!gone.is_found(make_process_map(text, 99998).unwrap()));
}

#[test]
fn make_process_rejects_short_lines() {
    assert_eq!(
        ParseError::MissingColumns,
        make_process("11111 ttys000 0:00.00").unwrap_err()
    );
    assert_eq!(ParseError::MissingColumns, make_process("").unwrap_err());
}

#[test]
fn make_process_rejects_bad_pids() {
    assert_eq!(
        ParseError::InvalidPid,
        make_process("abc ttys000 0:00.00 sleep 30").unwrap_err()
    );
    assert_eq!(
        ParseError::InvalidPid,
        make_process("4294967296 ttys000 0:00.00 sleep 30").unwrap_err()
    );
    let (_, p) = make_process("4294967295 ttys000 0:00.00 sleep 30").unwrap();
    assert_eq!(u32::MAX, p.pid);
}

#[test]
fn make_process_map_propagates_parse_errors() {
    let text = "  PID TTY TIME CMD\ngarbage\n11112 ttys000 0:00:00 ps";
    assert_eq!(
        ParseError::MissingColumns,
        make_process_map(text, 99998).unwrap_err()
    );
    let text2 = "abc ttys000 0:00:00 ps";
    assert_eq!(
        ParseError::InvalidPid,
        make_process_map(text2, 99998).unwrap_err()
    );
}

#[test]
fn query_element_trims_and_detects_empty() {
    assert_eq!("abc", make_query_element("abc \n").unwrap());
    assert_eq!("a b", make_query_element("a b\n").unwrap());
    assert!(make_query_element("   \n").is_none());
    assert!(make_query_element("").is_none());
}

#[test]
fn elements_all_absent_yield_no_query() {
    assert!(query_from_elements(None, None, None).unwrap().is_none());
}

#[test]
fn elements_with_bad_pid_are_fatal() {
    assert_eq!(
        ParseError::InvalidPid,
        query_from_elements(None, Some(String::from("12x")), None).unwrap_err()
    );
}

#[test]
fn elements_build_a_query() {
    let query = query_from_elements(
        Some(String::from("sleep")),
        Some(String::from("11111")),
        None,
    )
    .unwrap()
    .unwrap();
    assert_eq!("sleep", query.command.unwrap());
    assert_eq!(11111, query.pid.unwrap());
    assert!(query.tty.is_none());
    let big = query_from_elements(None, Some(String::from("123456")), None)
        .unwrap()
        .unwrap();
    assert!(big.pid.is_none());
}

#[test]
fn elapsed_minute_counts_whole_minutes() {
    assert_eq!(0u32, elapsed_minute(5u32, 10u8));
    assert_eq!(2u32, elapsed_minute(12u32, 10u8));
    assert_eq!(10u32, elapsed_minute(10u32, 60u8));
}
