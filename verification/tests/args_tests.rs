use port_sniffer::args::{decide_arguments, parse_worker_count, str_contains, ArgError, Arguments};
use port_sniffer::scan::Target;

fn strings(parts: &[&str]) -> Vec<String> {
    parts.iter().map(|s| s.to_string()).collect()
}

#[test]
fn bare_address_scans_with_default_workers() {
    let t = Target::V4(192, 168, 1, 1);
    let r = decide_arguments(&strings(&["prog", "192.168.1.1"]), Some(t), None);
    assert_eq!(r, Ok(Arguments { target: t, threads: 4 }));
}

#[test]
fn argument_count_is_bounded() {
    assert_eq!(
        decide_arguments(&strings(&["prog"]), None, None),
        Err(ArgError::NotEnoughArguments)
    );
    assert_eq!(
        decide_arguments(&strings(&["prog", "a", "b", "c", "d"]), None, None),
        Err(ArgError::TooManyArguments)
    );
}

#[test]
fn help_flag_alone_asks_for_help() {
    assert_eq!(decide_arguments(&strings(&["prog", "-h"]), None, None), Err(ArgError::Help));
    assert_eq!(decide_arguments(&strings(&["prog", "-help"]), None, None), Err(ArgError::Help));
    assert_eq!(
        decide_arguments(&strings(&["prog", "-h", "extra"]), None, None),
        Err(ArgError::TooManyArguments)
    );
}

#[test]
fn thread_flag_selects_worker_count() {
    let t = Target::V4(10, 0, 0, 1);
    let r = decide_arguments(&strings(&["prog", "-j", "100", "10.0.0.1"]), None, Some(t));
    assert_eq!(r, Ok(Arguments { target: t, threads: 100 }));
}

#[test]
fn thread_flag_refuses_bad_input() {
    let t = Target::V4(10, 0, 0, 1);
    let args = strings(&["prog", "-j", "abc", "10.0.0.1"]);
    assert_eq!(decide_arguments(&args, None, Some(t)), Err(ArgError::InvalidThreadCount));
    let args = strings(&["prog", "-j", "0", "10.0.0.1"]);
    assert_eq!(decide_arguments(&args, None, Some(t)), Err(ArgError::InvalidThreadCount));
    let args = strings(&["prog", "-j", "100", "not-an-address"]);
    assert_eq!(decide_arguments(&args, None, None), Err(ArgError::InvalidAddress));
    let args = strings(&["prog", "-j", "100"]);
    assert_eq!(decide_arguments(&args, None, None), Err(ArgError::InvalidSyntax));
}

#[test]
fn unknown_flag_is_invalid_syntax() {
    assert_eq!(
        decide_arguments(&strings(&["prog", "-x"]), None, None),
        Err(ArgError::InvalidSyntax)
    );
}

#[test]
fn worker_count_parses_decimal_digits_only() {
    assert_eq!(parse_worker_count("4"), Some(4));
    assert_eq!(parse_worker_count("65535"), Some(65535));
    assert_eq!(parse_worker_count("007"), Some(7));
    assert_eq!(parse_worker_count("65536"), None);
    assert_eq!(parse_worker_count(""), None);
    assert_eq!(parse_worker_count("1a"), None);
    assert_eq!(parse_worker_count("-1"), None);
    assert_eq!(parse_worker_count(" 1"), None);
}

#[test]
fn substring_search_finds_contiguous_runs() {
    assert!(str_contains("-help", "-h"));
    assert!(str_contains("xx-hxx", "-h"));
    assert!(str_contains("abc", ""));
    assert!(!str_contains("abc", "abcd"));
    assert!(!str_contains("-j", "-h"));
    assert!(str_contains("aab", "ab"));
    assert!(!str_contains("acb", "ab"));
}
