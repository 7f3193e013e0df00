use tuicr::model::{Comment, CommentType, FileStatus, LineSide};
use tuicr::session::ReviewSession;

#[test]
fn reviewed_count_tracks_flags_only() {
    let mut session = ReviewSession::new("/repo".to_string(), "c1".to_string());
    session.add_file("a.rs".to_string(), FileStatus::Modified);
    session.add_file("b.rs".to_string(), FileStatus::Added);
    session.add_file("c.rs".to_string(), FileStatus::Deleted);
    assert_eq!(session.reviewed_count(), 0);
    if let Some(r) = session.get_file_mut(&"a.rs".to_string()) {
        r.reviewed = true;
        r.add_file_comment(Comment::new("x".to_string(), CommentType::Issue, None));
    }
    if let Some(r) = session.get_file_mut(&"c.rs".to_string()) {
        r.reviewed = true;
    }
    assert_eq!(session.reviewed_count(), 2);
    assert_eq!(session.file_count(), 3);
}

#[test]
fn add_file_twice_replaces_the_entry() {
    let mut session = ReviewSession::new("/repo".to_string(), "c1".to_string());
    session.add_file("a.rs".to_string(), FileStatus::Modified);
    if let Some(r) = session.get_file_mut(&"a.rs".to_string()) {
        r.reviewed = true;
    }
    session.add_file("a.rs".to_string(), FileStatus::Added);
    assert_eq!(session.file_count(), 1);
    assert_eq!(session.reviewed_count(), 0);
    let r = session.get_file_mut(&"a.rs".to_string()).expect("entry missing");
    assert_eq!(r.status, FileStatus::Added);
    assert!(r.file_comments.is_empty());
}

#[test]
fn get_file_mut_on_missing_path_is_none() {
    let mut session = ReviewSession::new("/repo".to_string(), "c1".to_string());
    session.add_file("a.rs".to_string(), FileStatus::Modified);
    assert!(session.get_file_mut(&"missing.rs".to_string()).is_none());
}

#[test]
fn updated_at_never_goes_backwards() {
    let mut session = ReviewSession::new("/repo".to_string(), "c1".to_string());
    let t0 = session.updated_at;
    session.add_file("a.rs".to_string(), FileStatus::Modified);
    assert!(session.updated_at >= t0);
    let t1 = session.updated_at;
    session.set_session_notes(Some("n".to_string()));
    assert!(session.updated_at >= t1);
}

#[test]
fn fresh_comments_have_distinct_ids() {
    let mut ids: Vec<String> = Vec::new();
    for k in 0..40 {
        let c = Comment::new(format!("c{}", k), CommentType::Note, None);
        assert_eq!(c.id.len(), 36);
        ids.push(c.id);
    }
    for i in 0..ids.len() {
        for j in (i + 1)..ids.len() {
            assert_ne!(ids[i], ids[j]);
        }
    }
}

#[test]
fn new_comment_starts_without_line_context() {
    let c = Comment::new("x".to_string(), CommentType::Suggestion, Some(LineSide::Old));
    assert!(c.line_context.is_none());
    assert_eq!(c.comment_type, CommentType::Suggestion);
    assert_eq!(c.side, Some(LineSide::Old));
}

#[test]
fn comment_type_labels() {
    assert_eq!(CommentType::Note.as_str(), "NOTE");
    assert_eq!(CommentType::Suggestion.as_str(), "SUGGESTION");
    assert_eq!(CommentType::Issue.as_str(), "ISSUE");
    assert_eq!(CommentType::Praise.as_str(), "PRAISE");
}

#[test]
fn status_glyphs() {
    assert_eq!(FileStatus::Added.as_char(), 'A');
    assert_eq!(FileStatus::Modified.as_char(), 'M');
    assert_eq!(FileStatus::Deleted.as_char(), 'D');
    assert_eq!(FileStatus::Renamed.as_char(), 'R');
    assert_eq!(FileStatus::Unknown.as_char(), '?');
}

#[test]
fn line_side_defaults_to_new() {
    assert_eq!(LineSide::default(), LineSide::New);
}

#[test]
fn comments_on_one_line_keep_insertion_order() {
    let mut session = ReviewSession::new("/repo".to_string(), "c1".to_string());
    session.add_file("a.rs".to_string(), FileStatus::Modified);
    if let Some(r) = session.get_file_mut(&"a.rs".to_string()) {
        r.add_line_comment(
            4,
            Comment::new("first".to_string(), CommentType::Note, Some(LineSide::Old)),
        );
        r.add_line_comment(
            4,
            Comment::new("second".to_string(), CommentType::Note, Some(LineSide::New)),
        );
        assert_eq!(r.line_comments.len(), 1);
        assert_eq!(r.line_comments[0].0, 4);
        assert_eq!(r.line_comments[0].1.len(), 2);
        assert_eq!(r.line_comments[0].1[0].content, "first");
        assert_eq!(r.line_comments[0].1[1].content, "second");
    }
}
