use slate::date::Date;
use slate::launch::{is_loopback, parse_args, parse_args_on, Flags, SlateTask};

fn args(list: &[&str]) -> Vec<String> {
    list.iter().map(|s| s.to_string()).collect()
}

#[test]
fn no_arguments_means_today_and_no_imports() {
    let flags = parse_args(&args(&[]));
    assert!(flags.initial_date.is_none());
    assert!(flags.import.is_empty());
}

#[test]
fn date_is_parsed() {
    assert_eq!(parse_args(&args(&["--date=2026-08-04"])).initial_date, Some(Date { year: 2026, month: 8, day: 4 }));
}

#[test]
fn a_bad_date_is_ignored_rather_than_fatal() {
    assert!(parse_args(&args(&["--date=not-a-date"])).initial_date.is_none());
}

#[test]
fn bare_paths_are_imports() {
    let flags = parse_args(&args(&["/tmp/a.ics", "/tmp/b.ics"]));
    assert_eq!(flags.import.len(), 2);
    assert_eq!(flags.import[0], "/tmp/a.ics");
}

#[test]
fn unknown_options_do_not_become_imports() {
    let flags = parse_args(&args(&["--verbose", "/tmp/a.ics"]));
    assert_eq!(flags.import, vec!["/tmp/a.ics".to_string()]);
}

#[test]
fn desktop_actions_have_command_line_equivalents() {
    assert!(parse_args(&args(&["--new-event"])).new_event);
    let today = Date { year: 2026, month: 8, day: 4 };
    assert_eq!(parse_args_on(&args(&["--today"]), today).initial_date, Some(today));
}

#[test]
fn an_empty_command_line_asks_a_running_instance_for_nothing() {
    assert!(parse_args(&args(&[])).action().is_none());
}

#[test]
fn a_request_carries_its_date_and_paths() {
    let flags = parse_args(&args(&["--date=2026-08-04", "--new-event", "/tmp/a.ics"]));
    let task = flags.action().expect("a request to hand over");
    assert_eq!(task, SlateTask { date: Some(Date { year: 2026, month: 8, day: 4 }), new_event: true });
    assert_eq!(flags.args(), vec!["/tmp/a.ics".to_string()]);
}

#[test]
fn an_import_alone_is_a_request() {
    let flags = Flags::new(None, vec!["/tmp/x.ics".to_string()], false);
    assert_eq!(flags.action(), Some(SlateTask { date: None, new_event: false }));
}

#[test]
fn a_later_date_replaces_an_earlier_one() {
    let flags = parse_args(&args(&["--date=2026-08-04", "--date=2027-01-02"]));
    assert_eq!(flags.initial_date, Some(Date { year: 2027, month: 1, day: 2 }));
}

#[test]
fn loopback_hosts_are_recognised() {
    assert!(is_loopback("http://localhost:8080/dav"));
    assert!(is_loopback("http://127.0.0.1/cal"));
    assert!(!is_loopback("http://example.com/dav"));
    assert!(!is_loopback("http://[::1]/dav"));
}
