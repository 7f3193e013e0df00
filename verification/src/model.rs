use vstd::prelude::*;

use crate::trusted;

verus! {

/// Which side of the diff a line comment belongs to.
#[derive(Debug, Clone, Copy, PartialEq, Eq, Structural)]
pub enum LineSide {
    /// Comment on a deleted line (keyed by the pre-change line number).
    Old,
    /// Comment on an added or context line (keyed by the post-change line number).
    New,
}

impl Default for LineSide {
    /// Legacy data without a recorded side is read as New.
    fn default() -> (r: Self)
        ensures
            r == LineSide::New,
    {
        LineSide::New
    }
}

#[derive(Debug, Clone, Copy, PartialEq, Eq, Structural)]
pub enum CommentType {
    Note,
    Suggestion,
    Issue,
    Praise,
}

/// The tag a comment type is rendered with.
pub open spec fn type_label(t: CommentType) -> Seq<char> {
    match t {
        CommentType::Note => "NOTE"@,
        CommentType::Suggestion => "SUGGESTION"@,
        CommentType::Issue => "ISSUE"@,
        CommentType::Praise => "PRAISE"@,
    }
}

impl CommentType {
    pub fn as_str(&self) -> (r: &'static str)
        ensures
            r@ == type_label(*self),
    {
        match self {
            CommentType::Note => "NOTE",
            CommentType::Suggestion => "SUGGESTION",
            CommentType::Issue => "ISSUE",
            CommentType::Praise => "PRAISE",
        }
    }

    /// An action item is an Issue- or Suggestion-typed comment.
    pub open spec fn spec_is_action(self) -> bool {
        self == CommentType::Issue || self == CommentType::Suggestion
    }

    pub fn is_action(&self) -> (r: bool)
        ensures
            r == self.spec_is_action(),
    {
        match self {
            CommentType::Issue => true,
            CommentType::Suggestion => true,
            _ => false,
        }
    }
}

/// The change classification of a tracked file.
#[derive(Debug, Clone, Copy, PartialEq, Eq, Structural)]
pub enum FileStatus {
    Added,
    Modified,
    Deleted,
    Renamed,
    Unknown,
}

/// The single-character display glyph of a file status.
pub open spec fn status_glyph(s: FileStatus) -> char {
    match s {
        FileStatus::Added => 'A',
        FileStatus::Modified => 'M',
        FileStatus::Deleted => 'D',
        FileStatus::Renamed => 'R',
        FileStatus::Unknown => '?',
    }
}

impl FileStatus {
    pub fn as_char(&self) -> (r: char)
        ensures
            r == status_glyph(*self),
    {
        match self {
            FileStatus::Added => 'A',
            FileStatus::Modified => 'M',
            FileStatus::Deleted => 'D',
            FileStatus::Renamed => 'R',
            FileStatus::Unknown => '?',
        }
    }

    /// The glyph as a one-character string.
    pub fn glyph_str(&self) -> (r: &'static str)
        ensures
            r@ == seq![status_glyph(*self)],
    {
        proof {
            reveal_strlit("A");
            reveal_strlit("M");
            reveal_strlit("D");
            reveal_strlit("R");
            reveal_strlit("?");
        }
        let r = match self {
            FileStatus::Added => "A",
            FileStatus::Modified => "M",
            FileStatus::Deleted => "D",
            FileStatus::Renamed => "R",
            FileStatus::Unknown => "?",
        };
        proof {
            assert(r@ =~= seq![status_glyph(*self)]);
        }
        r
    }
}

/// Snapshot of the diff line a comment was anchored to, for display and
/// audit stability if the diff later shifts; no remapping is performed.
#[derive(Debug, Clone, PartialEq)]
pub struct LineContext {
    pub new_line: Option<u32>,
    pub old_line: Option<u32>,
    pub content: String,
}

pub ghost struct LineContextV {
    pub new_line: Option<u32>,
    pub old_line: Option<u32>,
    pub content: Seq<char>,
}

impl View for LineContext {
    type V = LineContextV;

    open spec fn view(&self) -> LineContextV {
        LineContextV {
            new_line: self.new_line,
            old_line: self.old_line,
            content: self.content@,
        }
    }
}

/// One remark, immutable after creation except for being inserted
/// into exactly one container.
#[derive(Debug, Clone, PartialEq)]
pub struct Comment {
    /// Globally unique identifier, assigned at creation, never reused.
    pub id: String,
    pub content: String,
    pub comment_type: CommentType,
    /// Creation time, Unix seconds, immutable.
    pub created_at: u64,
    pub line_context: Option<LineContext>,
    /// Which numbering axis a line comment is keyed by; None for
    /// file-level comments. Legacy data without one is read as New.
    pub side: Option<LineSide>,
}

pub ghost struct CommentV {
    pub id: Seq<char>,
    pub content: Seq<char>,
    pub comment_type: CommentType,
    pub created_at: u64,
    pub line_context: Option<LineContextV>,
    pub side: Option<LineSide>,
}

impl View for Comment {
    type V = CommentV;

    open spec fn view(&self) -> CommentV {
        CommentV {
            id: self.id@,
            content: self.content@,
            comment_type: self.comment_type,
            created_at: self.created_at,
            line_context: match self.line_context {
                Some(l) => Some(l@),
                None => None,
            },
            side: self.side,
        }
    }
}

impl Comment {
    /// A fresh comment: a newly generated identifier, the current time,
    /// and no line context yet.
    pub fn new(content: String, comment_type: CommentType, side: Option<LineSide>) -> (c: Comment)
        ensures
            c@.content == content@,
            c@.comment_type == comment_type,
            c@.side == side,
            c@.line_context is None,
            c@.id.len() == 36,
    {
        Comment {
            id: trusted::fresh_id(),
            content,
            comment_type,
            created_at: trusted::now_unix(),
            line_context: None,
            side,
        }
    }
}

} // verus!
