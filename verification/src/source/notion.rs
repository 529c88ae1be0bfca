//! The parts of Notion's API responses that the crawler reads, and how a
//! Notion block becomes a text block.
//!
//! `GET /v1/pages/{id}` answers a [`PageResponse`]; `GET
//! /v1/blocks/{id}/children` answers a [`BlockListResponse`].
use vstd::prelude::*;

use super::{BlockKind, PageMeta, TextBlock};

verus! {

/// A run of text inside a block; only its plain text is kept.
#[derive(Debug)]
pub struct RichText {
    pub plain_text: String,
}

/// The body of a text-carrying block.
#[derive(Debug)]
pub struct RichTextHolder {
    pub rich_text: Vec<RichText>,
}

/// The body of a code block.
#[derive(Debug)]
pub struct CodeBody {
    pub rich_text: Vec<RichText>,
}

/// The body of a `child_page` block.
#[derive(Debug)]
pub struct ChildPageBody {
    pub title: String,
}

/// The block types the crawler understands, by their `type` tag.
#[derive(Debug)]
pub enum KnownBlock {
    Paragraph { paragraph: RichTextHolder },
    Heading1 { heading_1: RichTextHolder },
    Heading2 { heading_2: RichTextHolder },
    Heading3 { heading_3: RichTextHolder },
    BulletedListItem { bulleted_list_item: RichTextHolder },
    NumberedListItem { numbered_list_item: RichTextHolder },
    ToDo { to_do: RichTextHolder },
    Toggle { toggle: RichTextHolder },
    Quote { quote: RichTextHolder },
    Callout { callout: RichTextHolder },
    Code { code: CodeBody },
    ChildPage { child_page: ChildPageBody },
}

/// A block of a known type, or any other block (kept as its raw JSON text).
#[derive(Debug)]
pub enum BlockBody {
    Known(KnownBlock),
    Unknown(String),
}

/// One entry of a block listing.
#[derive(Debug)]
pub struct Block {
    pub id: String,
    pub has_children: bool,
    pub body: BlockBody,
}

/// One page of a block listing.
#[derive(Debug)]
pub struct BlockListResponse {
    pub has_more: bool,
    pub results: Vec<Block>,
    pub next_cursor: Option<String>,
}

/// A page property; only title properties are read.
#[derive(Debug)]
pub enum PageProperty {
    Title { title: Vec<RichText> },
    Other,
}

/// A page's metadata: its URL and its properties, in the order they were listed.
#[derive(Debug)]
pub struct PageResponse {
    pub url: String,
    pub properties: Vec<(String, PageProperty)>,
}

/// The plain text of a sequence of rich-text runs: their texts, concatenated.
pub open spec fn plain_text(rt: Seq<RichText>) -> Seq<char>
    decreases rt.len(),
{
    if rt.len() == 0 {
        seq![]
    } else {
        plain_text(rt.drop_last()) + rt.last().plain_text@
    }
}

/// Concatenates the plain text of each run.
pub fn join_rich(rt: &[RichText]) -> (s: String)
    ensures
        s@ == plain_text(rt@),
{
    let mut s = String::new();
    for i in 0..rt.len()
        invariant
            s@ == plain_text(rt@.take(i as int)),
    {
        assert(rt@.take(i + 1).drop_last() =~= rt@.take(i as int));
        s.append(rt[i].plain_text.as_str());
    }
    assert(rt@.take(rt@.len() as int) =~= rt@);
    s
}

/// The text and kind a block carries, if it is a known block other than a
/// child page; the text may be empty. A callout's text is read as a paragraph.
pub open spec fn block_content(b: Block) -> Option<(Seq<char>, BlockKind)> {
    match b.body {
        BlockBody::Known(k) => match k {
            KnownBlock::Paragraph { paragraph } => Some(
                (plain_text(paragraph.rich_text@), BlockKind::Paragraph),
            ),
            KnownBlock::Heading1 { heading_1 } => Some(
                (plain_text(heading_1.rich_text@), BlockKind::Heading(1)),
            ),
            KnownBlock::Heading2 { heading_2 } => Some(
                (plain_text(heading_2.rich_text@), BlockKind::Heading(2)),
            ),
            KnownBlock::Heading3 { heading_3 } => Some(
                (plain_text(heading_3.rich_text@), BlockKind::Heading(3)),
            ),
            KnownBlock::BulletedListItem { bulleted_list_item } => Some(
                (plain_text(bulleted_list_item.rich_text@), BlockKind::BulletedListItem),
            ),
            KnownBlock::NumberedListItem { numbered_list_item } => Some(
                (plain_text(numbered_list_item.rich_text@), BlockKind::NumberedListItem),
            ),
            KnownBlock::ToDo { to_do } => Some((plain_text(to_do.rich_text@), BlockKind::ToDo)),
            KnownBlock::Toggle { toggle } => Some(
                (plain_text(toggle.rich_text@), BlockKind::Toggle),
            ),
            KnownBlock::Quote { quote } => Some((plain_text(quote.rich_text@), BlockKind::Quote)),
            KnownBlock::Callout { callout } => Some(
                (plain_text(callout.rich_text@), BlockKind::Paragraph),
            ),
            KnownBlock::Code { code } => Some((plain_text(code.rich_text@), BlockKind::Code)),
            KnownBlock::ChildPage { .. } => None,
        },
        BlockBody::Unknown(_) => None,
    }
}

/// Whether the block is a `child_page` block.
pub open spec fn is_child_page(b: Block) -> bool {
    b.body matches BlockBody::Known(KnownBlock::ChildPage { .. })
}

/// A block yields a text block exactly when it carries non-empty text.
pub open spec fn yields_text(b: Block) -> bool {
    block_content(b) matches Some(c) && c.0.len() > 0
}

/// The text block made of `b`, when it yields one: its text and kind, and no
/// heading path.
pub open spec fn is_text_block_of(tb: TextBlock, b: Block) -> bool {
    &&& yields_text(b)
    &&& tb.text@ == block_content(b).unwrap().0
    &&& tb.kind == block_content(b).unwrap().1
    &&& tb.heading_path@.len() == 0
}

/// The plain text of runs is their texts put together, in order.
pub proof fn lemma_plain_text_concat(rt: Seq<RichText>)
    ensures
        plain_text(rt) == rt.map_values(|r: RichText| r.plain_text@).flatten(),
    decreases rt.len(),
{
    let f = |r: RichText| r.plain_text@;
    if rt.len() > 0 {
        lemma_plain_text_concat(rt.drop_last());
        assert(rt.map_values(f) =~= rt.drop_last().map_values(f).push(rt.last().plain_text@));
        rt.drop_last().map_values(f).lemma_flatten_push(rt.last().plain_text@);
    } else {
        assert(rt.map_values(f) =~= Seq::<Seq<char>>::empty());
    }
}

/// What each kind of Notion block gives: a paragraph, heading (level 1 to
/// 3), list item, to-do, toggle, quote, callout or code block carries the
/// plain text of its runs, with the matching kind (a callout reads as a
/// paragraph), and yields a text block exactly when that text is not
/// empty; a child page or a block of another type gives none.
pub proof fn lemma_block_kinds(b: Block)
    ensures
        b.body matches BlockBody::Known(KnownBlock::Paragraph { paragraph }) ==> block_content(b) == Some(
            (plain_text(paragraph.rich_text@), BlockKind::Paragraph),
        ) && yields_text(b) == (plain_text(paragraph.rich_text@).len() > 0),
        b.body matches BlockBody::Known(KnownBlock::Heading1 { heading_1 }) ==> block_content(b) == Some(
            (plain_text(heading_1.rich_text@), BlockKind::Heading(1)),
        ) && yields_text(b) == (plain_text(heading_1.rich_text@).len() > 0),
        b.body matches BlockBody::Known(KnownBlock::Heading2 { heading_2 }) ==> block_content(b) == Some(
            (plain_text(heading_2.rich_text@), BlockKind::Heading(2)),
        ) && yields_text(b) == (plain_text(heading_2.rich_text@).len() > 0),
        b.body matches BlockBody::Known(KnownBlock::Heading3 { heading_3 }) ==> block_content(b) == Some(
            (plain_text(heading_3.rich_text@), BlockKind::Heading(3)),
        ) && yields_text(b) == (plain_text(heading_3.rich_text@).len() > 0),
        b.body matches BlockBody::Known(KnownBlock::BulletedListItem { bulleted_list_item })
            ==> block_content(b) == Some(
            (plain_text(bulleted_list_item.rich_text@), BlockKind::BulletedListItem),
        ) && yields_text(b) == (plain_text(bulleted_list_item.rich_text@).len() > 0),
        b.body matches BlockBody::Known(KnownBlock::NumberedListItem { numbered_list_item })
            ==> block_content(b) == Some(
            (plain_text(numbered_list_item.rich_text@), BlockKind::NumberedListItem),
        ) && yields_text(b) == (plain_text(numbered_list_item.rich_text@).len() > 0),
        b.body matches BlockBody::Known(KnownBlock::ToDo { to_do }) ==> block_content(b) == Some(
            (plain_text(to_do.rich_text@), BlockKind::ToDo),
        ) && yields_text(b) == (plain_text(to_do.rich_text@).len() > 0),
        b.body matches BlockBody::Known(KnownBlock::Toggle { toggle }) ==> block_content(b) == Some(
            (plain_text(toggle.rich_text@), BlockKind::Toggle),
        ) && yields_text(b) == (plain_text(toggle.rich_text@).len() > 0),
        b.body matches BlockBody::Known(KnownBlock::Quote { quote }) ==> block_content(b) == Some(
            (plain_text(quote.rich_text@), BlockKind::Quote),
        ) && yields_text(b) == (plain_text(quote.rich_text@).len() > 0),
        b.body matches BlockBody::Known(KnownBlock::Callout { callout }) ==> block_content(b) == Some(
            (plain_text(callout.rich_text@), BlockKind::Paragraph),
        ) && yields_text(b) == (plain_text(callout.rich_text@).len() > 0),
        b.body matches BlockBody::Known(KnownBlock::Code { code }) ==> block_content(b) == Some(
            (plain_text(code.rich_text@), BlockKind::Code),
        ) && yields_text(b) == (plain_text(code.rich_text@).len() > 0),
        b.body matches BlockBody::Known(KnownBlock::ChildPage { .. }) ==> block_content(b) is None
            && !yields_text(b),
        b.body is Unknown ==> block_content(b) is None && !yields_text(b),
{
}

/// A text block made of a block is a heading exactly when the block is a
/// heading_1, heading_2 or heading_3 block, at that level.
pub proof fn lemma_heading_blocks(tb: TextBlock, b: Block)
    requires
        is_text_block_of(tb, b),
    ensures
        tb.kind.spec_is_heading() <==> (b.body matches BlockBody::Known(KnownBlock::Heading1 { .. })
            || b.body matches BlockBody::Known(KnownBlock::Heading2 { .. })
            || b.body matches BlockBody::Known(KnownBlock::Heading3 { .. })),
        b.body matches BlockBody::Known(KnownBlock::Heading1 { .. }) ==> tb.kind == BlockKind::Heading(1),
        b.body matches BlockBody::Known(KnownBlock::Heading2 { .. }) ==> tb.kind == BlockKind::Heading(2),
        b.body matches BlockBody::Known(KnownBlock::Heading3 { .. }) ==> tb.kind == BlockKind::Heading(3),
{
    lemma_block_kinds(b);
}

fn holder_text(h: &RichTextHolder) -> (s: String)
    ensures
        s@ == plain_text(h.rich_text@),
{
    join_rich(h.rich_text.as_slice())
}

/// Converts a Notion block into a text block. Unknown blocks, child pages and
/// blocks with empty text give `None`.
pub fn block_to_text_block(b: &Block) -> (r: Option<TextBlock>)
    ensures
        r is Some <==> yields_text(*b),
        r matches Some(tb) ==> is_text_block_of(tb, *b),
{
    let (text, kind) = match &b.body {
        BlockBody::Known(k) => match k {
            KnownBlock::Paragraph { paragraph } => (holder_text(paragraph), BlockKind::Paragraph),
            KnownBlock::Heading1 { heading_1 } => (holder_text(heading_1), BlockKind::Heading(1)),
            KnownBlock::Heading2 { heading_2 } => (holder_text(heading_2), BlockKind::Heading(2)),
            KnownBlock::Heading3 { heading_3 } => (holder_text(heading_3), BlockKind::Heading(3)),
            KnownBlock::BulletedListItem { bulleted_list_item } => (
                holder_text(bulleted_list_item),
                BlockKind::BulletedListItem,
            ),
            KnownBlock::NumberedListItem { numbered_list_item } => (
                holder_text(numbered_list_item),
                BlockKind::NumberedListItem,
            ),
            KnownBlock::ToDo { to_do } => (holder_text(to_do), BlockKind::ToDo),
            KnownBlock::Toggle { toggle } => (holder_text(toggle), BlockKind::Toggle),
            KnownBlock::Quote { quote } => (holder_text(quote), BlockKind::Quote),
            KnownBlock::Callout { callout } => (holder_text(callout), BlockKind::Paragraph),
            KnownBlock::Code { code } => (
                join_rich(code.rich_text.as_slice()),
                BlockKind::Code,
            ),
            KnownBlock::ChildPage { .. } => {
                return None;
            },
        },
        BlockBody::Unknown(_) => {
            return None;
        },
    };
    if text.as_str().is_empty() {
        return None;
    }
    Some(TextBlock { heading_path: Vec::new(), text, kind })
}

/// The text blocks of the blocks that yield one, in order.
pub open spec fn text_blocks_of(bs: Seq<Block>, tbs: Seq<TextBlock>) -> bool
    decreases bs.len(),
{
    if bs.len() == 0 {
        tbs.len() == 0
    } else if yields_text(bs.last()) {
        tbs.len() > 0 && is_text_block_of(tbs.last(), bs.last()) && text_blocks_of(
            bs.drop_last(),
            tbs.drop_last(),
        )
    } else {
        text_blocks_of(bs.drop_last(), tbs)
    }
}

/// The text blocks of one page of a block listing, in order.
pub fn extract_text_blocks(resp: &BlockListResponse) -> (out: Vec<TextBlock>)
    ensures
        text_blocks_of(resp.results@, out@),
{
    let mut out: Vec<TextBlock> = Vec::new();
    for i in 0..resp.results.len()
        invariant
            text_blocks_of(resp.results@.take(i as int), out@),
    {
        assert(resp.results@.take(i + 1).drop_last() =~= resp.results@.take(i as int));
        let ghost before = out@;
        if let Some(tb) = block_to_text_block(&resp.results[i]) {
            out.push(tb);
            assert(out@.drop_last() =~= before);
        }
    }
    assert(resp.results@.take(resp.results@.len() as int) =~= resp.results@);
    out
}

/// The page title: the text of the first title property, or empty when there is none.
pub open spec fn first_title(props: Seq<(String, PageProperty)>) -> Seq<char>
    decreases props.len(),
{
    if props.len() == 0 {
        seq![]
    } else {
        match props[0].1 {
            PageProperty::Title { title } => plain_text(title@),
            PageProperty::Other => first_title(props.drop_first()),
        }
    }
}

/// The title and URL of a page, from its metadata response. The title is
/// found under whichever property has type title.
pub fn page_meta_from_response(resp: PageResponse) -> (m: PageMeta)
    ensures
        m.title@ == first_title(resp.properties@),
        m.url == resp.url,
{
    let mut i: usize = 0;
    let n = resp.properties.len();
    assert(resp.properties@.skip(0) =~= resp.properties@);
    while i < n
        invariant
            n == resp.properties@.len(),
            i <= n,
            first_title(resp.properties@) == first_title(resp.properties@.skip(i as int)),
        decreases n - i,
    {
        assert(resp.properties@.skip(i as int)[0] == resp.properties@[i as int]);
        match &resp.properties[i].1 {
            PageProperty::Title { title } => {
                let t = join_rich(title.as_slice());
                return PageMeta { title: t, url: resp.url };
            },
            PageProperty::Other => {},
        }
        assert(resp.properties@.skip(i as int).drop_first() =~= resp.properties@.skip(i + 1));
        i = i + 1;
    }
    PageMeta { title: String::new(), url: resp.url }
}

} // verus!
