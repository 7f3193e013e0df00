use tuicr::codec::{decode_session, encode_session};
use tuicr::error::TuicrError;
use tuicr::model::{Comment, CommentType, FileStatus, LineContext, LineSide};
use tuicr::session::ReviewSession;

fn rich_session() -> ReviewSession {
    let mut session = ReviewSession::new("/tmp/test-repo".to_string(), "abc1234def".to_string());
    session.set_session_notes(Some("notes with ; and \n inside".to_string()));
    session.add_file("src/main.rs".to_string(), FileStatus::Modified);
    session.add_file("docs/readme.md".to_string(), FileStatus::Renamed);
    if let Some(r) = session.get_file_mut(&"src/main.rs".to_string()) {
        r.reviewed = true;
        r.add_file_comment(Comment::new(
            "Consider adding documentation".to_string(),
            CommentType::Suggestion,
            None,
        ));
        let mut anchored = Comment::new(
            "Magic number".to_string(),
            CommentType::Issue,
            Some(LineSide::Old),
        );
        anchored.line_context = Some(LineContext {
            new_line: None,
            old_line: Some(42),
            content: "let x = 99;".to_string(),
        });
        r.add_line_comment(42, anchored);
        r.add_line_comment(
            42,
            Comment::new("also here".to_string(), CommentType::Praise, Some(LineSide::New)),
        );
    }
    session
}

#[test]
fn encode_then_decode_returns_an_equal_session() {
    let session = rich_session();
    let record = encode_session(&session);
    let decoded = decode_session(record.as_str()).expect("decoding a fresh record failed");
    assert_eq!(decoded, session);
}

#[test]
fn encode_then_decode_of_empty_session_round_trips() {
    let session = ReviewSession::new(String::new(), String::new());
    let record = encode_session(&session);
    let decoded = decode_session(record.as_str()).expect("decoding a fresh record failed");
    assert_eq!(decoded, session);
}

#[test]
fn truncated_record_is_reported_corrupted() {
    let session = rich_session();
    let record = encode_session(&session);
    let cut = &record[..record.len() / 2];
    match decode_session(cut) {
        Err(TuicrError::CorruptedSession(_)) => {},
        other => panic!("expected a corrupted-session error, got {:?}", other),
    }
}

#[test]
fn garbage_record_is_reported_corrupted() {
    match decode_session("this is not a session record") {
        Err(TuicrError::CorruptedSession(_)) => {},
        other => panic!("expected a corrupted-session error, got {:?}", other),
    }
    match decode_session("") {
        Err(TuicrError::CorruptedSession(_)) => {},
        other => panic!("expected a corrupted-session error, got {:?}", other),
    }
}

#[test]
fn record_with_trailing_garbage_is_reported_corrupted() {
    let session = ReviewSession::new("/r".to_string(), "c".to_string());
    let mut record = encode_session(&session);
    record.push_str("extra");
    match decode_session(record.as_str()) {
        Err(TuicrError::CorruptedSession(_)) => {},
        other => panic!("expected a corrupted-session error, got {:?}", other),
    }
}
