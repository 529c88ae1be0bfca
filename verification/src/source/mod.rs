//! Documents as the pipeline sees them, whatever their source: a page with a
//! title, a URL and an ordered list of text blocks.
use vstd::prelude::*;

pub mod crawl;
pub mod notion;

verus! {

/// One page of notes, its blocks in reading order.
#[derive(Debug)]
pub struct SourceDoc {
    pub page_id: String,
    pub title: String,
    pub url: String,
    pub blocks: Vec<TextBlock>,
}

/// One block of text and what kind of block it was.
#[derive(Debug)]
pub struct TextBlock {
    pub heading_path: Vec<String>,
    pub text: String,
    pub kind: BlockKind,
}

/// The kinds of blocks that carry text.
#[derive(Debug, Clone, Copy, PartialEq, Eq, Structural)]
pub enum BlockKind {
    Heading(u8),
    Paragraph,
    ListItem,
    Quote,
    Code,
    BulletedListItem,
    NumberedListItem,
    ToDo,
    Toggle,
}

impl BlockKind {
    /// A heading, of any level.
    pub open spec fn spec_is_heading(&self) -> bool {
        *self is Heading
    }

    /// Whether this is a heading (of any level).
    #[verifier::when_used_as_spec(spec_is_heading)]
    pub fn is_heading(&self) -> (r: bool)
        ensures
            r == self.spec_is_heading(),
    {
        match self {
            BlockKind::Heading(_) => true,
            _ => false,
        }
    }
}

/// The title and URL of a page.
#[derive(Debug)]
pub struct PageMeta {
    pub title: String,
    pub url: String,
}

} // verus!
