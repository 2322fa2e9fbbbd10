use hprof::bytes::{decode_json_string, find_array_end, find_marker, find_matching_brace, parse_numbers_fast};
use hprof::cli::{parse_args, ArgError, Command};
use hprof::format::{bold, display_name, format_bytes, format_delta, gray, red};
use hprof::session::{parse_session_command, SessionCommand, SessionError};
use hprof::types::{detect_profile_type, Error};

fn argv(v: &[&str]) -> Vec<String> {
    v.iter().map(|s| s.to_string()).collect()
}

#[test]
fn format_bytes_units_and_precision() {
    assert_eq!(format_bytes(0), "0.00 B");
    assert_eq!(format_bytes(512), "512 B");
    assert_eq!(format_bytes(1023), "1023 B");
    assert_eq!(format_bytes(1536), "1.50 KB");
    assert_eq!(format_bytes(10240), "10.0 KB");
    assert_eq!(format_bytes(1048576), "1.00 MB");
    assert_eq!(format_bytes(3 * 1024 * 1024 * 1024), "3.00 GB");
    assert_eq!(format_bytes(5000 * 1024 * 1024 * 1024), "5000 GB");
}

#[test]
fn format_delta_signs() {
    assert_eq!(format_delta(0, false), "±0 B");
    assert_eq!(format_delta(1536, false), "+1.50 KB");
    assert_eq!(format_delta(-2048, false), "-2.00 KB");
    assert_eq!(format_delta(0, true), "\x1b[90m±0 B\x1b[0m");
}

#[test]
fn colors_wrap_only_when_enabled() {
    assert_eq!(bold("x", true), "\x1b[1mx\x1b[0m");
    assert_eq!(bold("x", false), "x");
    assert_eq!(red("e", true), "\x1b[31me\x1b[0m");
    assert_eq!(gray("g", false), "g");
}

#[test]
fn display_name_marks_unnamed() {
    assert_eq!(display_name(""), "(unnamed)");
    assert_eq!(display_name("Foo"), "Foo");
}

#[test]
fn profile_type_from_extension() {
    assert_eq!(detect_profile_type("a/b.heapsnapshot"), Ok("heapsnapshot"));
    assert_eq!(detect_profile_type("x.heapprofile"), Ok("heapprofile"));
    assert_eq!(detect_profile_type("x.heaptimeline"), Ok("heaptimeline"));
    assert_eq!(detect_profile_type("notes.txt"), Err(Error::UnsupportedType("txt".to_string())));
}

#[test]
fn args_find_command() {
    let a = parse_args(&argv(&["find", "f.heapsnapshot", "--name", "Foo", "--exact", "--top", "5"])).unwrap();
    assert_eq!(a.command, Command::Find);
    assert_eq!(a.files, vec!["f.heapsnapshot".to_string()]);
    assert_eq!(a.name, Some("Foo".to_string()));
    assert!(a.exact);
    assert_eq!(a.top, 5);
    assert!(a.top_explicit);
}

#[test]
fn args_defaults_and_bad_numbers() {
    let a = parse_args(&argv(&["x.heapprofile", "--top", "abc", "--id", "q", "--min-self", "z"])).unwrap();
    assert_eq!(a.command, Command::Analyze);
    assert_eq!(a.top, 30);
    assert!(a.top_explicit);
    assert_eq!(a.id, None);
    assert_eq!(a.min_self, 0);
    let a = parse_args(&argv(&["--depth", "12", "--index", "7"])).unwrap();
    assert_eq!(a.depth, Some(12));
    assert_eq!(a.index, Some(7));
}

#[test]
fn args_errors() {
    assert!(matches!(parse_args(&argv(&["bench"])), Err(ArgError::RemovedCommand)));
    match parse_args(&argv(&["--bogus"])) {
        Err(ArgError::UnknownOption(o)) => assert_eq!(o, "--bogus"),
        _ => panic!("expected an unknown option"),
    }
}

#[test]
fn marker_and_arrays() {
    let data = b"ab\"nodes\":[1,[2,\"]\"],3]x";
    assert_eq!(find_marker(data, b"\"nodes\":["), Some(2));
    assert_eq!(find_marker(data, b"\"edges\":["), None);
    // the array opened at index 10 closes at the last ']'
    assert_eq!(find_array_end(data, 10), 22);
}

#[test]
fn numbers_are_parsed_in_order() {
    assert_eq!(parse_numbers_fast(b"1,22, 333]"), vec![1, 22, 333]);
    assert_eq!(parse_numbers_fast(b"]"), Vec::<u32>::new());
}

#[test]
fn json_strings_are_unescaped() {
    assert_eq!(decode_json_string(b"a\\nb\\u0041"), "a\nbA");
    assert_eq!(decode_json_string(b"q\\\"t\\\\"), "q\"t\\");
    // a surrogate pair becomes one character
    assert_eq!(decode_json_string(b"\\ud83d\\ude00"), "\u{1F600}");
}

#[test]
fn matching_brace() {
    let s = b"{\"a\":{\"b\":\"}\"}}tail";
    assert_eq!(find_matching_brace(s, 0), Some(14));
    assert_eq!(find_matching_brace(b"{\"a\":1", 0), None);
}

#[test]
fn session_commands() {
    assert_eq!(parse_session_command("help"), Ok(SessionCommand::Help));
    assert_eq!(parse_session_command("summary"), Ok(SessionCommand::Summary));
    assert_eq!(parse_session_command("top"), Ok(SessionCommand::Top { limit: 20, exact: false }));
    assert_eq!(parse_session_command("top 5 --exact"), Ok(SessionCommand::Top { limit: 5, exact: true }));
    assert_eq!(parse_session_command("top  --exact"), Ok(SessionCommand::Top { limit: 20, exact: true }));
    assert_eq!(parse_session_command("find  Foo Bar "), Ok(SessionCommand::Find("Foo Bar".to_string())));
    assert_eq!(parse_session_command("find"), Err(SessionError::NameRequired));
    assert_eq!(parse_session_command("props 12 x"), Ok(SessionCommand::Props(12)));
    assert_eq!(parse_session_command("retainers\t7"), Ok(SessionCommand::Retainers(7)));
    assert_eq!(parse_session_command("props"), Err(SessionError::IndexRequired));
    assert_eq!(parse_session_command("props abc"), Err(SessionError::InvalidIndex));
    assert_eq!(parse_session_command("detached"), Ok(SessionCommand::Detached));
    assert_eq!(parse_session_command("bogus 1"), Err(SessionError::UnknownCommand("bogus".to_string())));
}
