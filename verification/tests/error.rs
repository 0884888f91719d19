use ddbug::error::{dwarf_error, dwarf_failure, io_error, Error};
use std::io;

#[test]
fn errors_say_their_text() {
    assert_eq!(Error::from("plain").description(), "plain");
    assert_eq!(Error::from(String::from("owned")).description(), "owned");
    assert_eq!(Error::from("").description(), "");
    assert_eq!(Error::prefixed("open failed: ", "no such file").description(), "open failed: no such file");
}

#[test]
fn errors_of_input_and_output() {
    assert_eq!(io_error("broken pipe").description(), "IO error: broken pipe");
    let failure = io::Error::new(io::ErrorKind::Other, "no more room");
    assert_eq!(Error::from(failure).description(), "IO error: no more room");
    // The words are those of the system.
    let words = io::Error::from_raw_os_error(2).to_string();
    let error = Error::from(io::Error::from_raw_os_error(2));
    assert_eq!(error.description(), format!("IO error: {}", words));
}

#[test]
fn errors_of_the_parser() {
    let words = gimli::Error::UnexpectedEof.to_string();
    assert_eq!(dwarf_error(&words).description(), "DWARF error: UnexpectedEof");
    for failure in vec![gimli::Error::UnexpectedEof, gimli::Error::BadBranchTarget(7)] {
        let error = dwarf_failure(&failure);
        assert_eq!(error.description(), format!("DWARF error: {}", failure));
    }
}
