//! The Notion crawl as a state machine.
//!
//! Starting from root page ids, the crawl asks for each page's metadata, then
//! lists the page's blocks (page by page of the listing), and walks them in
//! pre-order: a block's children come right after it, before its later
//! siblings. A `child_page` block is not folded into its parent; its id joins
//! the queue of pages and becomes a document of its own. The queue is a
//! stack: the last root page is crawled first, and a page's child pages are
//! crawled before the pages that were already waiting.
//!
//! Two guards keep the crawl finite over cycles of pages: a page already
//! taken from the queue is skipped when it comes up again (so each page
//! becomes at most one document), and child pages are followed only down to
//! `MAX_PAGE_DEPTH` levels below the root pages.
//!
//! The caller performs each [`CrawlAction`] (an HTTP request) and hands the
//! answer back with [`Crawl::on_page_meta`] or [`Crawl::on_children`].
use vstd::prelude::*;

use super::notion::{
    block_content, block_to_text_block, is_child_page, yields_text, Block, BlockBody,
    BlockListResponse, KnownBlock,
};
use super::{BlockKind, PageMeta, SourceDoc, TextBlock};

verus! {

/// How many levels of child pages below the root pages are followed.
pub const MAX_PAGE_DEPTH: usize = 32;

/// What the crawl needs next.
#[derive(Debug)]
pub enum CrawlAction {
    /// Fetch `GET /v1/pages/{id}` and hand the answer to `on_page_meta`.
    FetchPageMeta(String),
    /// Fetch one page of `GET /v1/blocks/{block_id}/children`, starting at
    /// `cursor` when there is one, and hand it to `on_children`.
    FetchChildren { block_id: String, cursor: Option<String> },
    /// Every page has been crawled; `into_docs` gives the documents.
    Finished,
}

/// The page being walked.
pub struct OpenPage {
    pub page_id: String,
    pub title: String,
    pub url: String,
    /// The blocks still to visit, the next one last.
    pub pending: Vec<Block>,
    /// The text blocks found so far, in reading order.
    pub blocks: Vec<TextBlock>,
}

/// A block listing in progress.
pub struct Listing {
    pub block_id: String,
    pub cursor: Option<String>,
    /// The blocks of the listing's pages received so far, in order.
    pub received: Vec<Block>,
}

/// The crawl's state.
pub struct Crawl {
    /// Pages waiting to be crawled, each with its depth below the root
    /// pages, the next one last.
    pub queue: Vec<(String, usize)>,
    /// Pages taken from the queue so far.
    pub visited: Vec<String>,
    /// The depth of the page awaited or open.
    pub depth: usize,
    /// The documents finished so far, in the order they were finished.
    pub docs: Vec<SourceDoc>,
    /// The page whose metadata was asked for and not yet received.
    pub awaiting_meta: Option<String>,
    pub page: Option<OpenPage>,
    pub listing: Option<Listing>,
}

/// A text block as plain values.
pub struct TextBlockView {
    pub heading_path: Seq<Seq<char>>,
    pub text: Seq<char>,
    pub kind: BlockKind,
}

/// A finished document as plain values.
pub struct DocView {
    pub page_id: String,
    pub title: String,
    pub url: String,
    pub blocks: Seq<TextBlockView>,
}

/// The page being walked, its pending blocks in visiting order.
pub struct PageView {
    pub page_id: String,
    pub title: String,
    pub url: String,
    pub pending: Seq<Block>,
    pub blocks: Seq<TextBlockView>,
}

pub struct ListingView {
    pub block_id: String,
    pub cursor: Option<String>,
    pub received: Seq<Block>,
}

/// The crawl's state as plain values; `queue` keeps the stack order (next last).
pub struct CrawlView {
    pub queue: Seq<(String, usize)>,
    pub visited: Seq<String>,
    pub depth: usize,
    pub docs: Seq<DocView>,
    pub awaiting_meta: Option<String>,
    pub page: Option<PageView>,
    pub listing: Option<ListingView>,
}

/// A text block as plain values.
pub open spec fn text_block_view(tb: TextBlock) -> TextBlockView {
    TextBlockView {
        heading_path: tb.heading_path@.map_values(|s: String| s@),
        text: tb.text@,
        kind: tb.kind,
    }
}

/// A document as plain values.
pub open spec fn doc_view(d: SourceDoc) -> DocView {
    DocView {
        page_id: d.page_id,
        title: d.title,
        url: d.url,
        blocks: d.blocks@.map_values(|tb: TextBlock| text_block_view(tb)),
    }
}

impl View for OpenPage {
    type V = PageView;

    open spec fn view(&self) -> PageView {
        PageView {
            page_id: self.page_id,
            title: self.title,
            url: self.url,
            pending: self.pending@.reverse(),
            blocks: self.blocks@.map_values(|tb: TextBlock| text_block_view(tb)),
        }
    }
}

impl View for Listing {
    type V = ListingView;

    open spec fn view(&self) -> ListingView {
        ListingView { block_id: self.block_id, cursor: self.cursor, received: self.received@ }
    }
}

impl View for Crawl {
    type V = CrawlView;

    open spec fn view(&self) -> CrawlView {
        CrawlView {
            queue: self.queue@,
            visited: self.visited@,
            depth: self.depth,
            docs: self.docs@.map_values(|d: SourceDoc| doc_view(d)),
            awaiting_meta: self.awaiting_meta,
            page: match self.page {
                Some(p) => Some(p@),
                None => None,
            },
            listing: match self.listing {
                Some(l) => Some(l@),
                None => None,
            },
        }
    }
}

/// The text block a block yields, as plain values (only meaningful when it yields one).
pub open spec fn text_of(b: Block) -> TextBlockView {
    TextBlockView {
        heading_path: seq![],
        text: block_content(b).unwrap().0,
        kind: block_content(b).unwrap().1,
    }
}

/// The text blocks of `bs` in order, skipping blocks that yield none.
pub open spec fn visible_texts(bs: Seq<Block>) -> Seq<TextBlockView>
    decreases bs.len(),
{
    if bs.len() == 0 {
        seq![]
    } else if yields_text(bs[0]) {
        seq![text_of(bs[0])] + visible_texts(bs.drop_first())
    } else {
        visible_texts(bs.drop_first())
    }
}

/// The queue entries for the child-page blocks of `bs`, in order, on a
/// page at depth `depth`: each at the next depth, or none at the depth cap.
pub open spec fn child_entries(bs: Seq<Block>, depth: usize) -> Seq<(String, usize)>
    decreases bs.len(),
{
    if bs.len() == 0 {
        seq![]
    } else if is_child_page(bs[0]) && depth < MAX_PAGE_DEPTH {
        seq![(bs[0].id, (depth + 1) as usize)] + child_entries(bs.drop_first(), depth)
    } else {
        child_entries(bs.drop_first(), depth)
    }
}

/// The queue after a child page `id` is met on a page at depth `depth`.
pub open spec fn queue_child(queue: Seq<(String, usize)>, id: String, depth: usize) -> Seq<(String, usize)> {
    if depth < MAX_PAGE_DEPTH {
        queue.push((id, (depth + 1) as usize))
    } else {
        queue
    }
}

/// Some page of `visited` has the id `id`.
pub open spec fn seen(visited: Seq<String>, id: Seq<char>) -> bool {
    exists|i: int| 0 <= i < visited.len() && #[trigger] visited[i]@ == id
}

/// What shrinks as `advance` walks the open page without asking for anything.
pub open spec fn advance_measure(s: CrawlView) -> nat {
    match s.page {
        Some(p) => p.pending.len() + 1,
        None => 0,
    }
}

/// What `next_action` does: with a listing in progress, ask for its next
/// page; with metadata awaited, ask for it; with a page open, visit its
/// pending blocks in order (a child page joins the queue; a block that
/// yields text adds it; a block with children stops the walk to list them);
/// when the page has nothing pending, finish its document; with no page open,
/// take the next page from the queue, skipping pages already visited, or finish.
pub open spec fn advance(s: CrawlView) -> (CrawlView, CrawlAction)
    decreases advance_measure(s), s.queue.len(),
{
    if s.listing is Some {
        let l = s.listing.unwrap();
        (s, CrawlAction::FetchChildren { block_id: l.block_id, cursor: l.cursor })
    } else if s.awaiting_meta is Some {
        (s, CrawlAction::FetchPageMeta(s.awaiting_meta.unwrap()))
    } else if s.page is Some {
        let p = s.page.unwrap();
        if p.pending.len() == 0 {
            let doc = DocView { page_id: p.page_id, title: p.title, url: p.url, blocks: p.blocks };
            advance(CrawlView { docs: s.docs.push(doc), page: None, ..s })
        } else {
            let b = p.pending[0];
            let rest = p.pending.drop_first();
            if is_child_page(b) {
                advance(
                    CrawlView {
                        queue: queue_child(s.queue, b.id, s.depth),
                        page: Some(PageView { pending: rest, ..p }),
                        ..s
                    },
                )
            } else {
                let blocks = if yields_text(b) {
                    p.blocks.push(text_of(b))
                } else {
                    p.blocks
                };
                if b.has_children {
                    (
                        CrawlView {
                            page: Some(PageView { pending: rest, blocks, ..p }),
                            listing: Some(ListingView { block_id: b.id, cursor: None, received: seq![] }),
                            ..s
                        },
                        CrawlAction::FetchChildren { block_id: b.id, cursor: None },
                    )
                } else {
                    advance(CrawlView { page: Some(PageView { pending: rest, blocks, ..p }), ..s })
                }
            }
        }
    } else if s.queue.len() == 0 {
        (s, CrawlAction::Finished)
    } else {
        let (id, depth) = s.queue.last();
        if seen(s.visited, id@) {
            advance(CrawlView { queue: s.queue.drop_last(), ..s })
        } else {
            (
                CrawlView {
                    queue: s.queue.drop_last(),
                    visited: s.visited.push(id),
                    awaiting_meta: Some(id),
                    depth,
                    ..s
                },
                CrawlAction::FetchPageMeta(id),
            )
        }
    }
}


/// A block that makes the walk stop to list its children.
pub open spec fn opens_listing(b: Block) -> bool {
    b.has_children && !is_child_page(b)
}

/// A child page never yields a text block of its parent.
pub proof fn lemma_child_page_not_folded(b: Block, depth: usize)
    requires
        is_child_page(b),
    ensures
        !yields_text(b),
        visible_texts(seq![b]) == Seq::<TextBlockView>::empty(),
        child_entries(seq![b], depth) == queue_child(seq![], b.id, depth),
{
    assert(seq![b].drop_first() =~= Seq::<Block>::empty());
    assert(visible_texts(Seq::<Block>::empty()) == Seq::<TextBlockView>::empty());
    assert(child_entries(Seq::<Block>::empty(), depth) == Seq::<(String, usize)>::empty());
    assert(seq![(b.id, (depth + 1) as usize)] + Seq::<(String, usize)>::empty() =~= seq![
        (b.id, (depth + 1) as usize),
    ]);
    assert(Seq::<(String, usize)>::empty().push((b.id, (depth + 1) as usize)) =~= seq![
        (b.id, (depth + 1) as usize),
    ]);
}

proof fn lemma_visible_texts_step(bs: Seq<Block>, k: int, d: usize)
    requires
        0 <= k < bs.len(),
    ensures
        visible_texts(bs.take(k + 1)) == (if yields_text(bs[0]) {
            seq![text_of(bs[0])]
        } else {
            seq![]
        }) + visible_texts(bs.drop_first().take(k)),
        child_entries(bs.take(k + 1), d) == (if is_child_page(bs[0]) && d < MAX_PAGE_DEPTH {
            seq![(bs[0].id, (d + 1) as usize)]
        } else {
            seq![]
        }) + child_entries(bs.drop_first().take(k), d),
{
    assert(bs.take(k + 1).drop_first() =~= bs.drop_first().take(k));
    assert(bs.take(k + 1)[0] == bs[0]);
    assert(seq![] + visible_texts(bs.drop_first().take(k)) =~= visible_texts(bs.drop_first().take(k)));
    assert(Seq::<(String, usize)>::empty() + child_entries(bs.drop_first().take(k), d) =~= child_entries(
        bs.drop_first().take(k),
        d,
    ));
}

/// Walking an open page stops at the first block that has children (and is
/// not a child page): the blocks before it and the block itself have been
/// visited in order, their text blocks appended and their child pages queued
/// in order (below the depth cap), and the listing of that block's children
/// begins. With the listing handed over by `on_children`, its blocks are
/// visited next, ahead of the block's later siblings: the walk is a
/// pre-order traversal.
pub proof fn lemma_walk_stops_at_nested(s: CrawlView, k: int)
    requires
        s.listing is None,
        s.awaiting_meta is None,
        s.page is Some,
        0 <= k < s.page.unwrap().pending.len(),
        forall|i: int| 0 <= i < k ==> !opens_listing(#[trigger] s.page.unwrap().pending[i]),
        opens_listing(s.page.unwrap().pending[k]),
    ensures
        ({
            let p = s.page.unwrap();
            let b = p.pending[k];
            let visited = p.pending.take(k + 1);
            advance(s) == (
                CrawlView {
                    queue: s.queue + child_entries(visited, s.depth),
                    page: Some(
                        PageView {
                            pending: p.pending.skip(k + 1),
                            blocks: p.blocks + visible_texts(visited),
                            ..p
                        },
                    ),
                    listing: Some(ListingView { block_id: b.id, cursor: None, received: seq![] }),
                    ..s
                },
                CrawlAction::FetchChildren { block_id: b.id, cursor: None },
            )
        }),
    decreases k,
{
    let p = s.page.unwrap();
    let d = s.depth;
    let b0 = p.pending[0];
    lemma_visible_texts_step(p.pending, k, d);
    if k == 0 {
        assert(p.pending.drop_first().take(0) =~= Seq::<Block>::empty());
        assert(p.pending.skip(1) =~= p.pending.drop_first());
        if yields_text(b0) {
            assert(p.blocks.push(text_of(b0)) =~= p.blocks + seq![text_of(b0)]);
        } else {
            assert(p.blocks =~= p.blocks + Seq::<TextBlockView>::empty());
        }
        assert(s.queue =~= s.queue + Seq::<(String, usize)>::empty());
    } else {
        assert(!opens_listing(p.pending[0]));
        let rest = p.pending.drop_first();
        let s1 = if is_child_page(b0) {
            CrawlView { queue: queue_child(s.queue, b0.id, d), page: Some(PageView { pending: rest, ..p }), ..s }
        } else {
            let blocks = if yields_text(b0) {
                p.blocks.push(text_of(b0))
            } else {
                p.blocks
            };
            CrawlView { page: Some(PageView { pending: rest, blocks, ..p }), ..s }
        };
        if is_child_page(b0) {
            lemma_child_page_not_folded(b0, d);
        }
        assert(advance(s) == advance(s1));
        assert forall|i: int| 0 <= i < k - 1 implies !opens_listing(#[trigger] s1.page.unwrap().pending[i]) by {
            assert(s1.page.unwrap().pending[i] == p.pending[i + 1]);
        }
        assert(s1.page.unwrap().pending[k - 1] == p.pending[k]);
        lemma_walk_stops_at_nested(s1, k - 1);
        assert(rest.skip(k) =~= p.pending.skip(k + 1));
        let tail = child_entries(rest.take(k), d);
        if is_child_page(b0) {
            if d < MAX_PAGE_DEPTH {
                assert(s.queue.push((b0.id, (d + 1) as usize)) + tail =~= s.queue + (seq![
                    (b0.id, (d + 1) as usize),
                ] + tail));
            } else {
                assert(s.queue + tail =~= s.queue + (Seq::<(String, usize)>::empty() + tail));
            }
            assert(p.blocks + visible_texts(rest.take(k)) =~= p.blocks + (Seq::<TextBlockView>::empty()
                + visible_texts(rest.take(k))));
        } else if yields_text(b0) {
            assert(p.blocks.push(text_of(b0)) + visible_texts(rest.take(k)) =~= p.blocks + (seq![
                text_of(b0),
            ] + visible_texts(rest.take(k))));
            assert(s.queue + tail =~= s.queue + (Seq::<(String, usize)>::empty() + tail));
        } else {
            assert(p.blocks + visible_texts(rest.take(k)) =~= p.blocks + (Seq::<TextBlockView>::empty()
                + visible_texts(rest.take(k))));
            assert(s.queue + tail =~= s.queue + (Seq::<(String, usize)>::empty() + tail));
        }
    }
}

/// When no pending block of the open page has children to list, walking it
/// finishes the page's document: its text blocks are the ones found before,
/// followed by the text blocks of the pending blocks, in order; the pending
/// child pages join the queue in order (below the depth cap), and the crawl
/// goes on from there with no page open.
pub proof fn lemma_walk_finishes_page(s: CrawlView)
    requires
        s.listing is None,
        s.awaiting_meta is None,
        s.page is Some,
        forall|i: int|
            0 <= i < s.page.unwrap().pending.len() ==> !opens_listing(
                #[trigger] s.page.unwrap().pending[i],
            ),
    ensures
        ({
            let p = s.page.unwrap();
            let doc = DocView {
                page_id: p.page_id,
                title: p.title,
                url: p.url,
                blocks: p.blocks + visible_texts(p.pending),
            };
            advance(s) == advance(
                CrawlView {
                    queue: s.queue + child_entries(p.pending, s.depth),
                    docs: s.docs.push(doc),
                    page: None,
                    ..s
                },
            )
        }),
    decreases s.page.unwrap().pending.len(),
{
    let p = s.page.unwrap();
    let d = s.depth;
    if p.pending.len() == 0 {
        assert(s.queue + child_entries(p.pending, d) =~= s.queue);
        assert(p.blocks + visible_texts(p.pending) =~= p.blocks);
        let doc = DocView { page_id: p.page_id, title: p.title, url: p.url, blocks: p.blocks };
        let s2 = CrawlView { docs: s.docs.push(doc), page: None, ..s };
        assert(advance(s) == advance(s2));
    } else {
        let b0 = p.pending[0];
        let rest = p.pending.drop_first();
        assert(!opens_listing(b0));
        let s1 = if is_child_page(b0) {
            CrawlView { queue: queue_child(s.queue, b0.id, d), page: Some(PageView { pending: rest, ..p }), ..s }
        } else {
            let blocks = if yields_text(b0) {
                p.blocks.push(text_of(b0))
            } else {
                p.blocks
            };
            CrawlView { page: Some(PageView { pending: rest, blocks, ..p }), ..s }
        };
        if is_child_page(b0) {
            lemma_child_page_not_folded(b0, d);
        }
        assert(advance(s) == advance(s1));
        assert forall|i: int| 0 <= i < rest.len() implies !opens_listing(#[trigger] s1.page.unwrap().pending[i]) by {
            assert(s1.page.unwrap().pending[i] == p.pending[i + 1]);
        }
        lemma_walk_finishes_page(s1);
        assert(p.pending.drop_first() =~= rest);
        if is_child_page(b0) {
            if d < MAX_PAGE_DEPTH {
                assert(s.queue.push((b0.id, (d + 1) as usize)) + child_entries(rest, d) =~= s.queue
                    + child_entries(p.pending, d));
            } else {
                assert(s.queue + child_entries(rest, d) =~= s.queue + child_entries(p.pending, d));
            }
            assert(p.blocks + visible_texts(rest) =~= p.blocks + visible_texts(p.pending));
        } else if yields_text(b0) {
            assert(p.blocks.push(text_of(b0)) + visible_texts(rest) =~= p.blocks + visible_texts(p.pending));
            assert(s.queue + child_entries(rest, d) =~= s.queue + child_entries(p.pending, d));
        } else {
            assert(p.blocks + visible_texts(rest) =~= p.blocks + visible_texts(p.pending));
            assert(s.queue + child_entries(rest, d) =~= s.queue + child_entries(p.pending, d));
        }
    }
}

/// The finished documents have distinct page ids.
pub open spec fn distinct_docs(docs: Seq<DocView>) -> bool {
    forall|i: int, j: int| 0 <= i < j < docs.len() ==> #[trigger] docs[i].page_id@ != #[trigger] docs[j].page_id@
}

/// No finished document has the page id `id`.
pub open spec fn not_done(docs: Seq<DocView>, id: Seq<char>) -> bool {
    forall|i: int| 0 <= i < docs.len() ==> (#[trigger] docs[i]).page_id@ != id
}

/// What the crawl keeps true: the finished documents have distinct page ids,
/// all of visited pages; the page awaited or open is visited and not yet a
/// document; a page is never both awaited and open.
pub open spec fn crawl_ok(s: CrawlView) -> bool {
    &&& distinct_docs(s.docs)
    &&& forall|i: int| 0 <= i < s.docs.len() ==> seen(s.visited, (#[trigger] s.docs[i]).page_id@)
    &&& (s.awaiting_meta matches Some(id) ==> seen(s.visited, id@) && not_done(s.docs, id@) && s.page is None)
    &&& (s.page matches Some(p) ==> seen(s.visited, p.page_id@) && not_done(s.docs, p.page_id@))
}

proof fn lemma_seen_push(visited: Seq<String>, id: String, x: Seq<char>)
    requires
        seen(visited, x),
    ensures
        seen(visited.push(id), x),
{
    let i = choose|i: int| 0 <= i < visited.len() && #[trigger] visited[i]@ == x;
    assert(visited.push(id)[i] == visited[i]);
}

/// Every step of the crawl keeps `crawl_ok`.
pub proof fn lemma_advance_ok(s: CrawlView)
    requires
        crawl_ok(s),
    ensures
        crawl_ok(advance(s).0),
    decreases advance_measure(s), s.queue.len(),
{
    if s.listing is Some || s.awaiting_meta is Some {
    } else if s.page is Some {
        let p = s.page.unwrap();
        if p.pending.len() == 0 {
            let doc = DocView { page_id: p.page_id, title: p.title, url: p.url, blocks: p.blocks };
            let s2 = CrawlView { docs: s.docs.push(doc), page: None, ..s };
            assert forall|i: int, j: int| 0 <= i < j < s2.docs.len() implies #[trigger] s2.docs[i].page_id@
                != #[trigger] s2.docs[j].page_id@ by {
                if j == s.docs.len() {
                    assert(s.docs[i] == s2.docs[i]);
                } else {
                    assert(s.docs[i] == s2.docs[i] && s.docs[j] == s2.docs[j]);
                }
            }
            assert forall|i: int| 0 <= i < s2.docs.len() implies seen(s2.visited, (#[trigger] s2.docs[i]).page_id@) by {
                if i < s.docs.len() {
                    assert(s.docs[i] == s2.docs[i]);
                }
            }
            lemma_advance_ok(s2);
        } else {
            let b = p.pending[0];
            let rest = p.pending.drop_first();
            if is_child_page(b) {
                lemma_advance_ok(
                    CrawlView {
                        queue: queue_child(s.queue, b.id, s.depth),
                        page: Some(PageView { pending: rest, ..p }),
                        ..s
                    },
                );
            } else if !b.has_children {
                let blocks = if yields_text(b) {
                    p.blocks.push(text_of(b))
                } else {
                    p.blocks
                };
                lemma_advance_ok(CrawlView { page: Some(PageView { pending: rest, blocks, ..p }), ..s });
            }
        }
    } else if s.queue.len() > 0 {
        let (id, depth) = s.queue.last();
        if seen(s.visited, id@) {
            lemma_advance_ok(CrawlView { queue: s.queue.drop_last(), ..s });
        } else {
            let s2 = advance(s).0;
            assert forall|i: int| 0 <= i < s2.docs.len() implies seen(s2.visited, (#[trigger] s2.docs[i]).page_id@) by {
                lemma_seen_push(s.visited, id, s.docs[i].page_id@);
            }
            assert(s2.visited[s.visited.len() as int] == id);
            assert forall|i: int| 0 <= i < s.docs.len() implies (#[trigger] s.docs[i]).page_id@ != id@ by {
                if s.docs[i].page_id@ == id@ {
                    assert(seen(s.visited, s.docs[i].page_id@));
                }
            }
        }
    }
}

/// The crawl finishes only when nothing is left: when a step says
/// `Finished`, no listing is in progress, no metadata is awaited, no page is
/// open and the queue is empty.
pub proof fn lemma_finished_drains(s: CrawlView)
    requires
        advance(s).1 is Finished,
    ensures
        advance(s).0.queue.len() == 0,
        advance(s).0.page is None,
        advance(s).0.listing is None,
        advance(s).0.awaiting_meta is None,
    decreases advance_measure(s), s.queue.len(),
{
    if s.listing is Some || s.awaiting_meta is Some {
    } else if s.page is Some {
        let p = s.page.unwrap();
        if p.pending.len() == 0 {
            let doc = DocView { page_id: p.page_id, title: p.title, url: p.url, blocks: p.blocks };
            lemma_finished_drains(CrawlView { docs: s.docs.push(doc), page: None, ..s });
        } else {
            let b = p.pending[0];
            let rest = p.pending.drop_first();
            if is_child_page(b) {
                lemma_finished_drains(
                    CrawlView {
                        queue: queue_child(s.queue, b.id, s.depth),
                        page: Some(PageView { pending: rest, ..p }),
                        ..s
                    },
                );
            } else if !b.has_children {
                let blocks = if yields_text(b) {
                    p.blocks.push(text_of(b))
                } else {
                    p.blocks
                };
                lemma_finished_drains(CrawlView { page: Some(PageView { pending: rest, blocks, ..p }), ..s });
            }
        }
    } else if s.queue.len() > 0 {
        let (id, depth) = s.queue.last();
        if seen(s.visited, id@) {
            lemma_finished_drains(CrawlView { queue: s.queue.drop_last(), ..s });
        }
    }
}

/// Skipping a visited page never drops the pages queued below it: from a
/// state with no page open and nothing awaited, the crawl finishes only
/// when every page still queued has been visited already.
pub proof fn lemma_finished_all_visited(s: CrawlView)
    requires
        s.listing is None,
        s.awaiting_meta is None,
        s.page is None,
        advance(s).1 is Finished,
    ensures
        forall|i: int| 0 <= i < s.queue.len() ==> seen(s.visited, (#[trigger] s.queue[i]).0@),
    decreases s.queue.len(),
{
    if s.queue.len() > 0 {
        let (id, depth) = s.queue.last();
        if seen(s.visited, id@) {
            let s1 = CrawlView { queue: s.queue.drop_last(), ..s };
            lemma_finished_all_visited(s1);
            assert forall|i: int| 0 <= i < s.queue.len() implies seen(s.visited, (#[trigger] s.queue[i]).0@) by {
                if i < s.queue.len() - 1 {
                    assert(s1.queue[i] == s.queue[i]);
                }
            }
        }
    }
}

/// Every root page is crawled: starting from the given roots, whenever the
/// crawl is about to say `Finished` with no page open, each root has been
/// visited, that is, asked for.
pub proof fn lemma_roots_visited_at_finish(s: CrawlView, roots: Seq<String>)
    requires
        s.listing is None,
        s.awaiting_meta is None,
        s.page is None,
        forall|i: int| 0 <= i < roots.len() ==> seen(s.visited, (#[trigger] roots[i])@) || exists|j: int|
            0 <= j < s.queue.len() && (#[trigger] s.queue[j]).0@ == roots[i]@,
        advance(s).1 is Finished,
    ensures
        forall|i: int| 0 <= i < roots.len() ==> seen(s.visited, (#[trigger] roots[i])@),
{
    lemma_finished_all_visited(s);
    assert forall|i: int| 0 <= i < roots.len() implies seen(s.visited, (#[trigger] roots[i])@) by {
        if !seen(s.visited, roots[i]@) {
            let j = choose|j: int| 0 <= j < s.queue.len() && (#[trigger] s.queue[j]).0@ == roots[i]@;
            assert(seen(s.visited, s.queue[j].0@));
        }
    }
}

/// A page is asked for at most once: a request for a page's metadata that is
/// not the repeat of one still awaited names a page not visited before.
pub proof fn lemma_page_requested_once(s: CrawlView, id: String)
    requires
        s.awaiting_meta is None,
        advance(s).1 == CrawlAction::FetchPageMeta(id),
    ensures
        !seen(s.visited, id@),
        seen(advance(s).0.visited, id@),
    decreases advance_measure(s), s.queue.len(),
{
    if s.listing is Some {
    } else if s.page is Some {
        let p = s.page.unwrap();
        if p.pending.len() == 0 {
            let doc = DocView { page_id: p.page_id, title: p.title, url: p.url, blocks: p.blocks };
            lemma_page_requested_once(CrawlView { docs: s.docs.push(doc), page: None, ..s }, id);
        } else {
            let b = p.pending[0];
            let rest = p.pending.drop_first();
            if is_child_page(b) {
                lemma_page_requested_once(
                    CrawlView {
                        queue: queue_child(s.queue, b.id, s.depth),
                        page: Some(PageView { pending: rest, ..p }),
                        ..s
                    },
                    id,
                );
            } else if !b.has_children {
                let blocks = if yields_text(b) {
                    p.blocks.push(text_of(b))
                } else {
                    p.blocks
                };
                lemma_page_requested_once(
                    CrawlView { page: Some(PageView { pending: rest, blocks, ..p }), ..s },
                    id,
                );
            }
        }
    } else if s.queue.len() > 0 {
        let (qid, depth) = s.queue.last();
        if seen(s.visited, qid@) {
            lemma_page_requested_once(CrawlView { queue: s.queue.drop_last(), ..s }, id);
        } else {
            assert(advance(s).0.visited[s.visited.len() as int] == id);
        }
    }
}

fn is_seen(visited: &Vec<String>, id: &String) -> (r: bool)
    ensures
        r == seen(visited@, id@),
{
    let n = visited.len();
    for i in 0..n
        invariant
            n == visited@.len(),
            forall|j: int| 0 <= j < i ==> #[trigger] visited@[j]@ != id@,
    {
        if visited[i] == *id {
            assert(visited@[i as int]@ == id@);
            return true;
        }
    }
    false
}

fn clone_cursor(c: &Option<String>) -> (r: Option<String>)
    ensures
        r == *c,
{
    match c {
        Some(s) => Some(s.clone()),
        None => None,
    }
}

fn block_is_child_page(b: &Block) -> (r: bool)
    ensures
        r == is_child_page(*b),
{
    match &b.body {
        BlockBody::Known(KnownBlock::ChildPage { .. }) => true,
        _ => false,
    }
}

proof fn lemma_text_block_view(tb: TextBlock, b: Block)
    requires
        super::notion::is_text_block_of(tb, b),
    ensures
        text_block_view(tb) == text_of(b),
{
    assert(tb.heading_path@.map_values(|s: String| s@) =~= seq![]);
}

impl Crawl {
    /// A crawl of the given root pages; the last one is crawled first.
    pub fn new(page_ids: Vec<String>) -> (c: Crawl)
        ensures
            c@ == (CrawlView {
                queue: page_ids@.map_values(|id: String| (id, 0usize)),
                visited: seq![],
                depth: 0,
                docs: seq![],
                awaiting_meta: None,
                page: None,
                listing: None,
            }),
            crawl_ok(c@),
    {
        let mut queue: Vec<(String, usize)> = Vec::new();
        let n = page_ids.len();
        for i in 0..n
            invariant
                n == page_ids@.len(),
                queue@ == page_ids@.take(i as int).map_values(|id: String| (id, 0usize)),
        {
            queue.push((page_ids[i].clone(), 0));
            assert(page_ids@.take(i + 1).map_values(|id: String| (id, 0usize)) =~= page_ids@.take(
                i as int,
            ).map_values(|id: String| (id, 0usize)).push((page_ids@[i as int], 0usize)));
        }
        assert(page_ids@.take(n as int) =~= page_ids@);
        let c = Crawl {
            queue,
            visited: Vec::new(),
            depth: 0,
            docs: Vec::new(),
            awaiting_meta: None,
            page: None,
            listing: None,
        };
        assert(c@.docs =~= seq![]);
        assert(c@.visited =~= seq![]);
        c
    }

    /// Decides the next request, walking the open page's blocks as far as
    /// can be done without one.
    pub fn next_action(&mut self) -> (a: CrawlAction)
        ensures
            (final(self)@, a) == advance(old(self)@),
            crawl_ok(old(self)@) ==> crawl_ok(final(self)@),
    {
        proof {
            if crawl_ok(self@) {
                lemma_advance_ok(self@);
            }
        }
        loop
            invariant
                advance(self@) == advance(old(self)@),
                crawl_ok(old(self)@) ==> crawl_ok(advance(old(self)@).0),
            decreases advance_measure(self@), self@.queue.len(),
        {
            let ghost s = self@;
            if self.listing.is_some() {
                let l = self.listing.as_ref().unwrap();
                return CrawlAction::FetchChildren {
                    block_id: l.block_id.clone(),
                    cursor: clone_cursor(&l.cursor),
                };
            }
            if self.awaiting_meta.is_some() {
                let id = self.awaiting_meta.as_ref().unwrap();
                return CrawlAction::FetchPageMeta(id.clone());
            }
            if self.page.is_some() {
                let mut page = self.page.take().unwrap();
                let ghost p = page@;
                match page.pending.pop() {
                    None => {
                        assert(p.pending.len() == 0);
                        let doc = SourceDoc {
                            page_id: page.page_id,
                            title: page.title,
                            url: page.url,
                            blocks: page.blocks,
                        };
                        self.docs.push(doc);
                        assert(self@.docs =~= s.docs.push(
                            DocView { page_id: p.page_id, title: p.title, url: p.url, blocks: p.blocks },
                        ));
                        assert(self@ == CrawlView {
                            docs: s.docs.push(
                                DocView { page_id: p.page_id, title: p.title, url: p.url, blocks: p.blocks },
                            ),
                            page: None,
                            ..s
                        });
                    },
                    Some(b) => {
                        assert(p.pending[0] == b);
                        assert(page@.pending =~= p.pending.drop_first());
                        if block_is_child_page(&b) {
                            if self.depth < MAX_PAGE_DEPTH {
                                self.queue.push((b.id, self.depth + 1));
                            }
                            self.page = Some(page);
                            assert(self@ == CrawlView {
                                queue: queue_child(s.queue, b.id, s.depth),
                                page: Some(PageView { pending: p.pending.drop_first(), ..p }),
                                ..s
                            });
                        } else {
                            let ghost before = page.blocks@;
                            match block_to_text_block(&b) {
                                Some(tb) => {
                                    proof {
                                        lemma_text_block_view(tb, b);
                                    }
                                    page.blocks.push(tb);
                                    assert(page@.blocks =~= p.blocks.push(text_of(b)));
                                },
                                None => {},
                            }
                            let ghost blocks = page@.blocks;
                            if b.has_children {
                                let id = b.id.clone();
                                self.listing = Some(Listing { block_id: b.id, cursor: None, received: Vec::new() });
                                self.page = Some(page);
                                assert(self@.listing =~= Some(ListingView { block_id: b.id, cursor: None, received: seq![] }));
                                return CrawlAction::FetchChildren { block_id: id, cursor: None };
                            }
                            self.page = Some(page);
                            assert(self@ == CrawlView {
                                page: Some(PageView { pending: p.pending.drop_first(), blocks, ..p }),
                                ..s
                            });
                        }
                    },
                }
            } else {
                match self.queue.pop() {
                    None => {
                        return CrawlAction::Finished;
                    },
                    Some((id, depth)) => {
                        if !is_seen(&self.visited, &id) {
                            self.visited.push(id.clone());
                            self.awaiting_meta = Some(id.clone());
                            self.depth = depth;
                            return CrawlAction::FetchPageMeta(id);
                        }
                        assert(self@ == CrawlView { queue: s.queue.drop_last(), ..s });
                    },
                }
            }
        }
    }

    /// Hands over a page's metadata. When it was awaited, the page opens and
    /// the listing of its blocks starts; otherwise nothing changes.
    pub fn on_page_meta(&mut self, meta: PageMeta)
        ensures
            ({
                let s = old(self)@;
                if s.awaiting_meta is Some && s.page is None && s.listing is None {
                    let id = s.awaiting_meta.unwrap();
                    final(self)@ == CrawlView {
                        awaiting_meta: None,
                        page: Some(
                            PageView {
                                page_id: id,
                                title: meta.title,
                                url: meta.url,
                                pending: seq![],
                                blocks: seq![],
                            },
                        ),
                        listing: Some(ListingView { block_id: id, cursor: None, received: seq![] }),
                        ..s
                    }
                } else {
                    final(self)@ == s
                }
            }),
            crawl_ok(old(self)@) ==> crawl_ok(final(self)@),
    {
        if self.awaiting_meta.is_some() && self.page.is_none() && self.listing.is_none() {
            let id = self.awaiting_meta.take().unwrap();
            let listing_id = id.clone();
            self.page = Some(OpenPage {
                page_id: id,
                title: meta.title,
                url: meta.url,
                pending: Vec::new(),
                blocks: Vec::new(),
            });
            self.listing = Some(Listing { block_id: listing_id, cursor: None, received: Vec::new() });
            assert(self@.page.unwrap().pending =~= seq![]);
            assert(self@.page.unwrap().blocks =~= seq![]);
        }
    }

    /// Hands over one page of a block listing. Its blocks are appended to
    /// those received so far. When more pages follow, the listing goes on
    /// from `next_cursor`; otherwise the listed blocks, in order, become the
    /// next blocks to visit, ahead of the blocks that were pending. Without a
    /// listing in progress nothing changes.
    pub fn on_children(&mut self, resp: BlockListResponse)
        ensures
            ({
                let s = old(self)@;
                if s.listing is Some && s.page is Some {
                    let l = s.listing.unwrap();
                    let p = s.page.unwrap();
                    let received = l.received + resp.results@;
                    if resp.has_more {
                        final(self)@ == CrawlView {
                            listing: Some(ListingView { block_id: l.block_id, cursor: resp.next_cursor, received }),
                            ..s
                        }
                    } else {
                        final(self)@ == CrawlView {
                            page: Some(PageView { pending: received + p.pending, ..p }),
                            listing: None,
                            ..s
                        }
                    }
                } else {
                    final(self)@ == old(self)@
                }
            }),
            crawl_ok(old(self)@) ==> crawl_ok(final(self)@),
    {
        if self.listing.is_some() && self.page.is_some() {
            let ghost s = self@;
            let mut listing = self.listing.take().unwrap();
            let ghost l = listing@;
            let mut results = resp.results;
            listing.received.append(&mut results);
            if resp.has_more {
                listing.cursor = resp.next_cursor;
                self.listing = Some(listing);
                assert(self@.listing =~= Some(
                    ListingView {
                        block_id: l.block_id,
                        cursor: resp.next_cursor,
                        received: l.received + resp.results@,
                    },
                ));
            } else {
                let mut page = self.page.take().unwrap();
                let ghost p = page@;
                let ghost stack0 = page.pending@;
                let ghost blocks0 = page.blocks@;
                let ghost received = listing.received@;
                let mut received_blocks = listing.received;
                while received_blocks.len() > 0
                    invariant
                        page.page_id == p.page_id,
                        page.title == p.title,
                        page.url == p.url,
                        page.blocks@ == blocks0,
                        page.pending@ == stack0 + received.subrange(
                            received_blocks.len() as int,
                            received.len() as int,
                        ).reverse(),
                        received_blocks@ == received.take(received_blocks.len() as int),
                        received_blocks.len() <= received.len(),
                    decreases received_blocks.len(),
                {
                    let ghost k = received_blocks.len();
                    let ghost before = received_blocks@;
                    let b = received_blocks.pop().unwrap();
                    assert(b == before[k - 1]);
                    assert(before[k - 1] == received[k - 1]);
                    page.pending.push(b);
                    assert(received.subrange(k - 1, received.len() as int).reverse() =~= received.subrange(
                        k as int,
                        received.len() as int,
                    ).reverse().push(b));
                    assert(received_blocks@ =~= received.take(k - 1));
                }
                assert(received.subrange(0, received.len() as int) =~= received);
                assert(page@.pending =~= received + p.pending);
                self.page = Some(page);
            }
        }
    }

    /// The finished documents, in the order they were finished.
    pub fn into_docs(self) -> (docs: Vec<SourceDoc>)
        ensures
            docs@.map_values(|d: SourceDoc| doc_view(d)) == self@.docs,
            crawl_ok(self@) ==> forall|i: int, j: int|
                0 <= i < j < docs@.len() ==> #[trigger] docs@[i].page_id@ != #[trigger] docs@[j].page_id@,
    {
        let docs = self.docs;
        assert(forall|i: int| 0 <= i < docs@.len() ==> #[trigger] self@.docs[i] == doc_view(docs@[i]));
        proof {
            if crawl_ok(self@) {
                assert forall|i: int, j: int|
                    0 <= i < j < docs@.len() implies #[trigger] docs@[i].page_id@ != #[trigger] docs@[j].page_id@ by {
                    assert(self@.docs[i].page_id@ != self@.docs[j].page_id@);
                }
            }
        }
        docs
    }
}

} // verus!
