use intercept::trace::{Trace, TraceError};
use intercept::DatabaseError;

fn list(items: &[&str]) -> Vec<String> {
    items.iter().map(|s| s.to_string()).collect()
}

fn broken_json() -> serde_json::Error {
    serde_json::from_str::<serde_json::Value>("{\"pid\": 1, \"cwd\"").unwrap_err()
}

#[test]
fn create_keeps_what_was_captured() {
    let args = list(&["cc", "-c", "", "foo.c", "-c"]);
    let trace = Trace::create(4711, "/build", &args).unwrap();
    assert_eq!(trace.pid, 4711);
    assert_eq!(trace.cwd, "/build");
    assert_eq!(trace.cmd, args);
    assert!(trace.is_well_formed());
}

#[test]
fn create_needs_a_program_name() {
    assert_eq!(Trace::create(1, "/build", &Vec::new()), None);
}

#[test]
fn create_needs_an_absolute_directory() {
    let args = list(&["cc"]);
    assert_eq!(Trace::create(1, "build", &args), None);
    assert_eq!(Trace::create(1, "", &args), None);
    assert_eq!(Trace::create(1, "./build", &args), None);
    assert!(Trace::create(1, "/", &args).is_some());
}

#[test]
fn well_formed_records() {
    let good = Trace { pid: 0, cwd: "/".to_string(), cmd: list(&[""]) };
    assert!(good.is_well_formed());
    let no_command = Trace { pid: 0, cwd: "/".to_string(), cmd: Vec::new() };
    assert!(!no_command.is_well_formed());
    let relative = Trace { pid: 0, cwd: "tmp".to_string(), cmd: list(&["cc"]) };
    assert!(!relative.is_well_formed());
}

#[test]
fn duplicate_is_equal() {
    let trace = Trace { pid: 9, cwd: "/w".to_string(), cmd: list(&["cc", "", "x.c"]) };
    assert_eq!(trace.duplicate(), trace);
}

#[test]
fn trace_error_from_io() {
    let error = TraceError::from(std::io::Error::new(std::io::ErrorKind::NotFound, "gone"));
    match error {
        TraceError::Io(inner) => assert_eq!(inner.kind(), std::io::ErrorKind::NotFound),
        TraceError::Json(_) => panic!("an input error became a decoding error"),
    }
}

#[test]
fn trace_error_from_json() {
    let error = TraceError::from(broken_json());
    match error {
        TraceError::Json(inner) => assert!(inner.is_eof()),
        TraceError::Io(_) => panic!("a decoding error became an input error"),
    }
}

#[test]
fn database_error_from_io() {
    let error = DatabaseError::from(std::io::Error::new(std::io::ErrorKind::PermissionDenied, "no"));
    match error {
        DatabaseError::Io(inner) => assert_eq!(inner.kind(), std::io::ErrorKind::PermissionDenied),
        DatabaseError::Json(_) => panic!("an input error became a decoding error"),
    }
}

#[test]
fn database_error_from_json() {
    let error = DatabaseError::from(broken_json());
    match error {
        DatabaseError::Json(inner) => assert!(inner.is_eof()),
        DatabaseError::Io(_) => panic!("a decoding error became an input error"),
    }
}
