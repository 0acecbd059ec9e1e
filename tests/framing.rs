use ta_asterisk_alarm::session::{Session, SessionState};
use ta_asterisk_alarm::ami::{check_login, check_response, is_success_response, login_action, logoff_action, AmiError, AmiReader};

fn feed_message(reader: &mut AmiReader, chunks: &[&[u8]]) -> Result<Option<String>, AmiError> {
    for c in chunks {
        match reader.message_step(c) {
            Ok(None) => {}
            other => return other,
        }
    }
    Ok(None)
}

#[test]
fn message_in_one_chunk() {
    let mut r = AmiReader::new();
    let m = r.message_step(b"Response: Success\r\nMessage: ok\r\n\r\n").unwrap();
    assert_eq!(m.as_deref(), Some("Response: Success\r\nMessage: ok\r\n"));
    assert_eq!(r.pending_len(), 0);
}

#[test]
fn message_split_into_single_bytes() {
    let whole: &[u8] = b"Response: Success\r\nMessage: ok\r\n\r\n";
    let chunks: Vec<&[u8]> = whole.chunks(1).collect();
    let mut r = AmiReader::new();
    let m = feed_message(&mut r, &chunks).unwrap();
    let mut one = AmiReader::new();
    assert_eq!(m, one.message_step(whole).unwrap());
    assert_eq!(m.as_deref(), Some("Response: Success\r\nMessage: ok\r\n"));
}

#[test]
fn terminator_split_across_chunks() {
    let mut r = AmiReader::new();
    let m = feed_message(&mut r, &[b"Response: Error\r\n", b"\r", b"\n"]).unwrap();
    assert_eq!(m.as_deref(), Some("Response: Error\r\n"));
}

#[test]
fn multibyte_text_in_message() {
    let mut r = AmiReader::new();
    let m = feed_message(&mut r, &["Message: gr\u{fc}n\r\n".as_bytes(), b"\r\n"]).unwrap();
    assert_eq!(m.as_deref(), Some("Message: gr\u{fc}n\r\n"));
}

#[test]
fn empty_chunk_waits() {
    let mut r = AmiReader::new();
    assert!(matches!(r.message_step(b""), Ok(None)));
    assert!(matches!(r.message_step(b"Response: Success\r\n"), Ok(None)));
    assert_eq!(r.pending_len(), 19);
}

#[test]
fn nul_before_message_end_is_an_error() {
    let mut r = AmiReader::new();
    assert!(matches!(r.message_step(b"Response: Succ"), Ok(None)));
    assert!(matches!(r.message_step(b"ess\0\r\n\r\n"), Err(AmiError::EofBeforeNeline)));
    assert_eq!(r.pending_len(), 0);
}

#[test]
fn nul_after_message_end_is_ignored() {
    let mut r = AmiReader::new();
    let m = r.message_step(b"Response: Success\r\n\r\n\0\0\0").unwrap();
    assert_eq!(m.as_deref(), Some("Response: Success\r\n"));
}

#[test]
fn invalid_text_clears_buffer() {
    let mut r = AmiReader::new();
    assert!(matches!(r.message_step(b"Response: "), Ok(None)));
    assert!(matches!(r.message_step(b"\xff\xfe"), Err(AmiError::NotUtf8(_))));
    assert_eq!(r.pending_len(), 0);
    // a fresh message carries no leftover of the failed one
    let m = r.message_step(b"Response: Success\r\n\r\n").unwrap();
    assert_eq!(m.as_deref(), Some("Response: Success\r\n"));
}

#[test]
fn multibyte_char_split_across_chunks_is_not_text() {
    let mut r = AmiReader::new();
    let bytes = "Message: \u{fc}\r\n\r\n".as_bytes();
    assert!(matches!(r.message_step(&bytes[..10]), Err(AmiError::NotUtf8(_))));
}

#[test]
fn version_line_then_login_response() {
    let mut r = AmiReader::new();
    let mut line = String::new();
    assert!(matches!(r.version_step(&mut line, b"Asterisk Call Manager/8.0.0\r\n"), Ok(true)));
    assert_eq!(line, "Asterisk Call Manager/8.0.0");
    let m = r
        .message_step(b"Response: Success\r\nMessage: Authentication accepted\r\n\r\n")
        .unwrap()
        .unwrap();
    assert!(check_login(&m).is_ok());
}

#[test]
fn version_line_then_rejected_login() {
    let mut r = AmiReader::new();
    let mut line = String::new();
    assert!(matches!(r.version_step(&mut line, b"Asterisk Call Manager/8.0.0\r\n"), Ok(true)));
    let m = r
        .message_step(b"Response: Error\r\nMessage: Authentication accepted\r\n\r\n")
        .unwrap()
        .unwrap();
    assert!(matches!(check_login(&m), Err(AmiError::LoginFailure)));
}

#[test]
fn version_line_and_response_in_one_chunk() {
    let mut r = AmiReader::new();
    let mut line = String::new();
    let chunk: &[u8] =
        b"Asterisk Call Manager/8.0.0\r\nResponse: Success\r\nMessage: Authentication accepted\r\n\r\n";
    assert!(matches!(r.version_step(&mut line, chunk), Ok(true)));
    assert_eq!(line, "Asterisk Call Manager/8.0.0");
    let m = r.message_step(b"").unwrap().unwrap();
    assert_eq!(m, "Response: Success\r\nMessage: Authentication accepted\r\n");
}

#[test]
fn version_line_in_pieces() {
    let mut r = AmiReader::new();
    let mut line = String::new();
    assert!(matches!(r.version_step(&mut line, b"Asterisk Call"), Ok(false)));
    assert!(matches!(r.version_step(&mut line, b" Manager/8.0.0\r\nRes\0\0"), Ok(true)));
    assert_eq!(line, "Asterisk Call Manager/8.0.0");
    assert_eq!(r.pending_len(), 3);
}

#[test]
fn version_bare_newline() {
    let mut r = AmiReader::new();
    let mut line = String::new();
    assert!(matches!(r.version_step(&mut line, b"Asterisk\n"), Err(AmiError::IsolatedNewline)));
    let mut line = String::new();
    assert!(matches!(r.version_step(&mut line, b"Aster"), Ok(false)));
    assert!(matches!(r.version_step(&mut line, b"isk 8\nmore\r\n"), Err(AmiError::IsolatedNewline)));
    let mut line = String::new();
    assert!(matches!(r.version_step(&mut line, b"\n"), Err(AmiError::IsolatedNewline)));
}

#[test]
fn version_nul_before_newline() {
    let mut r = AmiReader::new();
    let mut line = String::new();
    assert!(matches!(r.version_step(&mut line, b"Aster\0isk\r\n"), Err(AmiError::EofBeforeNeline)));
    let mut line = String::new();
    assert!(matches!(r.version_step(&mut line, b"Asterisk"), Ok(false)));
    assert!(matches!(r.version_step(&mut line, b"\0\0\0"), Err(AmiError::EofBeforeNeline)));
}

#[test]
fn version_not_text() {
    let mut r = AmiReader::new();
    let mut line = String::new();
    assert!(matches!(r.version_step(&mut line, b"Aster\xffisk\r\n"), Err(AmiError::NotUtf8(_))));
    let mut line = String::new();
    assert!(matches!(r.version_step(&mut line, b"Aster\xff"), Err(AmiError::NotUtf8(_))));
}

#[test]
fn utf8_error_converts() {
    let e = std::str::from_utf8(b"\xff").unwrap_err();
    assert!(matches!(AmiError::from(e), AmiError::NotUtf8(_)));
}

#[test]
fn login_action_text() {
    assert_eq!(
        login_action("admin", "pw"),
        "Action: Login\r\nAuthType: plain\r\nUsername: admin\r\nSecret: pw\r\nEvents: off\r\n\r\n"
    );
    assert_eq!(logoff_action(), "Action: Logoff\r\n\r\n");
}

#[test]
fn success_line_detection() {
    assert!(is_success_response("Response: Success\r\n"));
    assert!(is_success_response("Message: x\r\nResponse: Success\r\n"));
    assert!(!is_success_response("Message: Response: Success\r\n"));
    assert!(!is_success_response("Response: Error\r\n"));
    assert!(!is_success_response(""));
    assert!(is_success_response("Response: Success"));
}

#[test]
fn response_outcomes() {
    assert!(check_response("Response: Success\r\nMessage: Originate successfully queued\r\n").is_ok());
    assert!(matches!(
        check_response("Response: Error\r\nMessage: Permission denied\r\n"),
        Err(AmiError::ActionUnsuccessful)
    ));
    assert!(matches!(check_response("Message: nothing\r\n"), Err(AmiError::NoResponseLine)));
    assert!(matches!(check_response(""), Err(AmiError::NoResponseLine)));
}

#[test]
fn session_login_and_close() {
    let mut s = Session::new();
    assert_eq!(s.state(), SessionState::Unauthenticated);
    assert!(!s.may_issue());
    assert!(s.finish_login("Response: Success\r\nMessage: Authentication accepted\r\n").is_ok());
    assert_eq!(s.state(), SessionState::Authenticated);
    assert!(s.may_issue());
    assert_eq!(s.close().as_deref(), Some("Action: Logoff\r\n\r\n"));
    assert_eq!(s.state(), SessionState::Closed);
    assert_eq!(s.close(), None);
}

#[test]
fn session_failed_login_is_closed() {
    let mut s = Session::new();
    assert!(matches!(
        s.finish_login("Response: Error\r\nMessage: Authentication failed\r\n"),
        Err(AmiError::LoginFailure)
    ));
    assert_eq!(s.state(), SessionState::Closed);
    assert!(!s.may_issue());
    assert_eq!(s.close(), None);
}

#[test]
fn version_line_crlf_split_across_reads() {
    let mut r = AmiReader::new();
    let mut line = String::new();
    assert!(matches!(r.version_step(&mut line, b"Asterisk Call Manager/8.0.0\r"), Ok(false)));
    assert!(matches!(r.version_step(&mut line, b"\nResponse"), Ok(true)));
    assert_eq!(line, "Asterisk Call Manager/8.0.0");
    assert_eq!(r.pending_len(), 8);
    let m = r.message_step(b": Success\r\n\r\n").unwrap();
    assert_eq!(m.as_deref(), Some("Response: Success\r\n"));
}

#[test]
fn version_line_held_cr_with_empty_read_between() {
    let mut r = AmiReader::new();
    let mut line = String::new();
    assert!(matches!(r.version_step(&mut line, b"Asterisk\r"), Ok(false)));
    assert!(matches!(r.version_step(&mut line, b""), Ok(false)));
    assert!(matches!(r.version_step(&mut line, b"\n"), Ok(true)));
    assert_eq!(line, "Asterisk");
}

#[test]
fn version_line_held_cr_not_followed_by_newline() {
    let mut r = AmiReader::new();
    let mut line = String::new();
    assert!(matches!(r.version_step(&mut line, b"Aster\r"), Ok(false)));
    assert!(matches!(r.version_step(&mut line, b"isk\r\n"), Ok(true)));
    assert_eq!(line, "Aster\risk");
    let mut r = AmiReader::new();
    let mut line = String::new();
    assert!(matches!(r.version_step(&mut line, b"Aster\r"), Ok(false)));
    assert!(matches!(r.version_step(&mut line, b"isk"), Ok(false)));
    assert!(matches!(r.version_step(&mut line, b"\n"), Err(AmiError::IsolatedNewline)));
}

#[test]
fn reset_drops_what_is_held() {
    let mut r = AmiReader::new();
    assert!(matches!(r.message_step(b"Response: Succ"), Ok(None)));
    r.reset();
    assert_eq!(r.pending_len(), 0);
    let m = r.message_step(b"Response: Error\r\n\r\n").unwrap();
    assert_eq!(m.as_deref(), Some("Response: Error\r\n"));
}

#[test]
fn error_messages() {
    assert_eq!(AmiError::LoginFailure.message(), "Login was attempted but failed.");
    assert_eq!(
        AmiError::IsolatedNewline.message(),
        "A \\n was encountered without a preceding \\r"
    );
    assert_eq!(
        AmiError::EofBeforeNeline.message(),
        "There was a nullbyte before an expected newline"
    );
    assert_eq!(
        AmiError::NoResponseLine.message(),
        "There was no Response: line, but one was expected."
    );
    assert_eq!(
        AmiError::ActionUnsuccessful.message(),
        "Action was sent and response received, but the response was not Success."
    );
    let io = std::io::Error::new(std::io::ErrorKind::Other, "gone");
    assert_eq!(AmiError::Read(io).message(), "Unable to read bytes from stream: gone");
    let io = std::io::Error::new(std::io::ErrorKind::Other, "gone");
    assert_eq!(AmiError::Write(io).message(), "Unable to write bytes to stream: gone");
    let e = std::str::from_utf8(b"\xff").unwrap_err();
    assert!(AmiError::NotUtf8(e).message().starts_with("The received bytes were not utf8: "));
}
