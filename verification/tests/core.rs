use procwatch::process::{make_process, make_process_map, Process, ProcessMap};
use procwatch::query::{Args, Query};
use procwatch::schedule::{elapsed_minute, is_every_minute};

#[test]
fn make_query() {
    let args = Args::new(
        Some(String::from("command")),
        Some(11111),
        Some(String::from("tty")),
        None,
        None,
    );
    let query = args.make_query();
    assert_eq!("command", query.command.unwrap());
    assert_eq!(11111, query.pid.unwrap());
    assert_eq!("tty", query.tty.unwrap());
}

#[test]
fn is_some_true_command() {
    let args = Args::new(Some(String::from("command")), None, None, None, None);
    assert!(args.is_some());
}

#[test]
fn is_some_true_pid() {
    let args = Args::new(None, Some(00000), None, None, None);
    assert!(args.is_some());
}

#[test]
fn is_some_true_tty() {
    let args = Args::new(None, None, Some(String::from("tty")), None, None);
    assert!(args.is_some());
}

#[test]
fn is_some_false() {
    let args = Args::new(None, None, None, None, None);
    assert!(!args.is_some());
}

#[test]
fn make_is_output_none() {
    let args = Args::new(None, None, None, None, None);
    assert!(args.is_output())
}

#[test]
fn make_is_output_true() {
    let args = Args::new(None, None, None, Some(true), None);
    assert!(args.is_output())
}

#[test]
fn make_is_output_false() {
    let args = Args::new(None, None, None, Some(false), None);
    assert!(!args.is_output())
}

#[test]
fn get_interval_default() {
    let args = Args::new(None, None, None, None, None);
    let interval = args.get_interval();
    assert_eq!(10u8, interval);
}

#[test]
fn get_interval_explicit() {
    let args = Args::new(None, None, None, None, Some(1u8));
    let interval = args.get_interval();
    assert_eq!(1u8, interval);
}

#[test]
fn query_new() {
    let query = Query::new(
        Some(String::from("command")),
        Some(11111),
        Some(String::from("tty")),
    );
    assert_eq!("command", query.command.unwrap());
    assert_eq!(11111, query.pid.unwrap());
    assert_eq!("tty", query.tty.unwrap());
}

#[test]
fn make_str_from_tty() {
    let query = Query::new(None, None, Some(String::from("ttys000")));
    let res = query.make_str();
    assert_eq!("(tty: ttys000 )", res);
}

#[test]
fn make_str_from_pid() {
    let query = Query::new(None, Some(11111), Some(String::from("ttys000")));
    let res = query.make_str();
    assert_eq!("(pid: 11111 tty: ttys000 )", res);
}

#[test]
fn make_str_from_command() {
    let query = Query::new(
        Some(String::from("command")),
        Some(11111),
        Some(String::from("ttys000")),
    );
    let res = query.make_str();
    assert_eq!("(command: command pid: 11111 tty: ttys000 )", res);
}

#[test]
fn is_found_true() {
    let query = Query::new(Some(String::from("command")), None, None);
    let process = Process::new(11111, String::from("command"));
    let tty = String::from("ttys001");
    let process_list = Vec::from([process]);
    let mut process_map = ProcessMap::new();
    process_map.insert(tty, process_list);
    assert!(query.is_found(process_map))
}

#[test]
fn is_found_false() {
    let query = Query::new(Some(String::from("ps")), None, None);
    let process = Process::new(11111, String::from("command"));
    let tty = String::from("ttys001");
    let process_list = Vec::from([process]);
    let mut process_map = ProcessMap::new();
    process_map.insert(tty, process_list);
    assert!(!query.is_found(process_map))
}

#[test]
fn is_matched_true() {
    let query = Query::new(Some(String::from("command")), None, None);
    let process = Process::new(11111, String::from("command"));
    let is_continue = query.is_matched("ttys001", Vec::from([process]).as_ref());
    assert!(is_continue);
}

#[test]
fn is_matched_false() {
    let query = Query::new(Some(String::from("ps")), None, None);
    let process = Process::new(11111, String::from("command"));
    let is_continue = query.is_matched("ttys001", Vec::from([process]).as_ref());
    assert!(!is_continue);
}

#[test]
fn process_new() {
    let process = Process::new(11111, String::from("command"));
    assert_eq!(11111, process.pid);
    assert_eq!("command", process.command);
}

#[test]
fn is_every_minute_true() {
    let i_six = 6u32;
    let interval_ten = 10u8;
    assert!(is_every_minute(i_six, interval_ten));

    let i_twelve = 12u32;
    assert!(is_every_minute(i_twelve, interval_ten));

    let i_two = 2u32;
    let interval_thirty = 30u8;
    assert!(is_every_minute(i_two, interval_thirty));

    let i_four = 4u32;
    assert!(is_every_minute(i_four, interval_thirty));
}

#[test]
fn is_every_minute_false() {
    let i_one = 1u32;
    let interval_ten = 10u8;
    assert!(!is_every_minute(i_one, interval_ten));

    let i_eight = 8u32;
    assert!(!is_every_minute(i_eight, interval_ten));

    let interval_thirty = 30u8;
    assert!(!is_every_minute(i_one, interval_thirty));
}

#[test]
fn elapsed_minute_() {
    assert_eq!(1u32, elapsed_minute(6u32, 10u8));
    assert_eq!(1u32, elapsed_minute(3u32, 20u8));
}

#[test]
fn make_process_ok() {
    let process = "11111 ttys000    0:00.00 sleep 30";
    let (tty, process) = make_process(process).unwrap();
    assert_eq!(11111, process.pid);
    assert_eq!("ttys000", tty);
    assert_eq!("sleep 30", process.command);
}

#[test]
fn make_process_map_ok() {
    let stdout = "  PID TTY TIME CMD\n11111 ttys000 0:00:00 -bash\n11112 ttys000 0:00:00 ps\n11113 ttys001 0:00:00 -bash";
    let map = make_process_map(stdout, 99998).unwrap();
    assert_eq!(1, map.len());
    assert_eq!(1, map.get("ttys000").unwrap().len());
    assert_eq!("ps", map.get("ttys000").unwrap().first().unwrap().command);
    assert_eq!(11112, map.get("ttys000").unwrap().first().unwrap().pid);
}
