use tuicr::model::{Comment, CommentType, FileStatus, LineSide};
use tuicr::render::generate_markdown;
use tuicr::session::ReviewSession;

fn create_test_session() -> ReviewSession {
    let mut session = ReviewSession::new("/tmp/test-repo".to_string(), "abc1234def".to_string());
    session.add_file("src/main.rs".to_string(), FileStatus::Modified);

    if let Some(review) = session.get_file_mut(&"src/main.rs".to_string()) {
        review.reviewed = true;
        review.add_file_comment(Comment::new(
            "Consider adding documentation".to_string(),
            CommentType::Suggestion,
            None,
        ));
        review.add_line_comment(
            42,
            Comment::new(
                "Magic number should be a constant".to_string(),
                CommentType::Issue,
                Some(LineSide::New),
            ),
        );
    }

    session
}

#[test]
fn should_generate_valid_markdown() {
    // given
    let session = create_test_session();

    // when
    let markdown = generate_markdown(&session);

    // then
    assert!(markdown.contains("# Code Review: test-repo"));
    assert!(markdown.contains("**Base Commit:** `abc1234def`"));
    assert!(markdown.contains("src/main.rs"));
    assert!(markdown.contains("[SUGGESTION]"));
    assert!(markdown.contains("Consider adding documentation"));
    assert!(markdown.contains("Line 42"));
    assert!(markdown.contains("[ISSUE]"));
    assert!(markdown.contains("Magic number"));
    assert!(markdown.contains("## Action Items"));
}

#[test]
fn should_include_action_items_for_issues_and_suggestions() {
    // given
    let session = create_test_session();

    // when
    let markdown = generate_markdown(&session);

    // then
    // Should have 2 action items (1 suggestion + 1 issue)
    assert!(markdown.contains("1."));
    assert!(markdown.contains("2."));
}

#[test]
fn files_reviewed_counts_appear() {
    let session = create_test_session();
    let markdown = generate_markdown(&session);
    assert!(markdown.contains("**Files Reviewed:** 1/1"));
}

#[test]
fn renders_are_deterministic_under_insertion_order() {
    let c1 = Comment::new("note one".to_string(), CommentType::Note, None);
    let c2 = Comment::new("issue two".to_string(), CommentType::Issue, Some(LineSide::New));

    let mut s1 = ReviewSession::new("/repo".to_string(), "c0ffee".to_string());
    s1.add_file("b.rs".to_string(), FileStatus::Added);
    s1.add_file("a.rs".to_string(), FileStatus::Deleted);
    if let Some(r) = s1.get_file_mut(&"a.rs".to_string()) {
        r.add_file_comment(c1.clone());
        r.add_line_comment(7, c2.clone());
    }

    let mut s2 = ReviewSession::new("/repo".to_string(), "c0ffee".to_string());
    s2.add_file("a.rs".to_string(), FileStatus::Deleted);
    s2.add_file("b.rs".to_string(), FileStatus::Added);
    if let Some(r) = s2.get_file_mut(&"a.rs".to_string()) {
        r.add_file_comment(c1.clone());
        r.add_line_comment(7, c2.clone());
    }

    s2.updated_at = s1.updated_at;
    assert_eq!(generate_markdown(&s1), generate_markdown(&s2));
}

#[test]
fn files_render_in_ascending_path_order() {
    let mut session = ReviewSession::new("/repo".to_string(), "deadbeef".to_string());
    session.add_file("b.rs".to_string(), FileStatus::Modified);
    session.add_file("a.rs".to_string(), FileStatus::Modified);
    let markdown = generate_markdown(&session);
    let pa = markdown.find("`a.rs`").expect("a.rs missing");
    let pb = markdown.find("`b.rs`").expect("b.rs missing");
    assert!(pa < pb);
}

#[test]
fn line_comments_render_in_ascending_line_order() {
    let mut session = ReviewSession::new("/repo".to_string(), "deadbeef".to_string());
    session.add_file("x.rs".to_string(), FileStatus::Modified);
    if let Some(r) = session.get_file_mut(&"x.rs".to_string()) {
        r.add_line_comment(
            90,
            Comment::new("later".to_string(), CommentType::Note, Some(LineSide::New)),
        );
        r.add_line_comment(
            5,
            Comment::new("earlier".to_string(), CommentType::Note, Some(LineSide::New)),
        );
    }
    let markdown = generate_markdown(&session);
    let p5 = markdown.find("**Line 5:**").expect("line 5 missing");
    let p90 = markdown.find("**Line 90:**").expect("line 90 missing");
    assert!(p5 < p90);
}

#[test]
fn no_summary_section_when_notes_absent() {
    let session = create_test_session();
    let markdown = generate_markdown(&session);
    assert!(!markdown.contains("## Summary"));
}

#[test]
fn summary_section_holds_notes_verbatim() {
    let mut session = create_test_session();
    session.set_session_notes(Some("Overall looks solid.".to_string()));
    let markdown = generate_markdown(&session);
    assert!(markdown.contains("## Summary"));
    assert!(markdown.contains("Overall looks solid."));
}

#[test]
fn no_action_items_for_notes_and_praise_only() {
    let mut session = ReviewSession::new("/repo".to_string(), "deadbeef".to_string());
    session.add_file("x.rs".to_string(), FileStatus::Modified);
    if let Some(r) = session.get_file_mut(&"x.rs".to_string()) {
        r.add_file_comment(Comment::new("fine".to_string(), CommentType::Note, None));
        r.add_line_comment(
            3,
            Comment::new("nice".to_string(), CommentType::Praise, Some(LineSide::New)),
        );
    }
    let markdown = generate_markdown(&session);
    assert!(!markdown.contains("## Action Items"));
}

#[test]
fn both_sides_of_same_line_are_rendered() {
    let mut session = ReviewSession::new("/repo".to_string(), "deadbeef".to_string());
    session.add_file("x.rs".to_string(), FileStatus::Modified);
    if let Some(r) = session.get_file_mut(&"x.rs".to_string()) {
        r.add_line_comment(
            10,
            Comment::new("old side".to_string(), CommentType::Note, Some(LineSide::Old)),
        );
        r.add_line_comment(
            10,
            Comment::new("new side".to_string(), CommentType::Note, Some(LineSide::New)),
        );
    }
    let markdown = generate_markdown(&session);
    assert!(markdown.contains("old side"));
    assert!(markdown.contains("new side"));
    let occurrences = markdown.matches("**Line 10:**").count();
    assert_eq!(occurrences, 2);
}

#[test]
fn empty_session_renders_header_and_files_only() {
    let session = ReviewSession::new("/repo".to_string(), "deadbeef".to_string());
    let markdown = generate_markdown(&session);
    assert!(markdown.contains("# Code Review: repo"));
    assert!(markdown.contains("## Files"));
    assert!(!markdown.contains("## Action Items"));
    assert!(!markdown.contains("## Summary"));
}

#[test]
fn unknown_repo_name_falls_back() {
    let session = ReviewSession::new("/".to_string(), "deadbeef".to_string());
    let markdown = generate_markdown(&session);
    assert!(markdown.contains("# Code Review: unknown"));
}

#[test]
fn epoch_timestamp_renders_in_utc_pattern() {
    let mut session = ReviewSession::new("/repo".to_string(), "deadbeef".to_string());
    session.updated_at = 0;
    let markdown = generate_markdown(&session);
    assert!(markdown.contains("**Reviewed:** 1970-01-01 00:00:00 UTC"));
}

#[test]
fn action_item_count_matches_issue_and_suggestion_total() {
    let mut session = ReviewSession::new("/repo".to_string(), "deadbeef".to_string());
    session.add_file("x.rs".to_string(), FileStatus::Modified);
    session.add_file("y.rs".to_string(), FileStatus::Added);
    if let Some(r) = session.get_file_mut(&"x.rs".to_string()) {
        r.add_file_comment(Comment::new("i1".to_string(), CommentType::Issue, None));
        r.add_file_comment(Comment::new("n1".to_string(), CommentType::Note, None));
        r.add_line_comment(
            2,
            Comment::new("s1".to_string(), CommentType::Suggestion, Some(LineSide::New)),
        );
    }
    if let Some(r) = session.get_file_mut(&"y.rs".to_string()) {
        r.add_line_comment(
            8,
            Comment::new("p1".to_string(), CommentType::Praise, Some(LineSide::Old)),
        );
        r.add_line_comment(
            8,
            Comment::new("i2".to_string(), CommentType::Issue, Some(LineSide::New)),
        );
    }
    let markdown = generate_markdown(&session);
    assert!(markdown.contains("1. "));
    assert!(markdown.contains("2. "));
    assert!(markdown.contains("3. "));
    assert!(!markdown.contains("4. "));
}
