use rag_personal::source::crawl::{Crawl, CrawlAction, MAX_PAGE_DEPTH};
use rag_personal::source::notion::{
    Block, BlockBody, BlockListResponse, ChildPageBody, KnownBlock, RichText, RichTextHolder,
};
use rag_personal::source::{BlockKind, PageMeta, SourceDoc};

fn rich(text: &str) -> RichTextHolder {
    RichTextHolder {
        rich_text: vec![RichText {
            plain_text: text.to_string(),
        }],
    }
}

fn paragraph(id: &str, text: &str) -> Block {
    Block {
        id: id.to_string(),
        has_children: false,
        body: BlockBody::Known(KnownBlock::Paragraph {
            paragraph: rich(text),
        }),
    }
}

fn heading_1(id: &str, text: &str) -> Block {
    Block {
        id: id.to_string(),
        has_children: false,
        body: BlockBody::Known(KnownBlock::Heading1 {
            heading_1: rich(text),
        }),
    }
}

fn bullet(id: &str, text: &str, has_children: bool) -> Block {
    Block {
        id: id.to_string(),
        has_children,
        body: BlockBody::Known(KnownBlock::BulletedListItem {
            bulleted_list_item: rich(text),
        }),
    }
}

fn child_page(id: &str, title: &str) -> Block {
    Block {
        id: id.to_string(),
        has_children: true,
        body: BlockBody::Known(KnownBlock::ChildPage {
            child_page: ChildPageBody {
                title: title.to_string(),
            },
        }),
    }
}

fn listing(has_more: bool, next_cursor: Option<&str>, results: Vec<Block>) -> BlockListResponse {
    BlockListResponse {
        has_more,
        results,
        next_cursor: next_cursor.map(|c| c.to_string()),
    }
}

/// Drives a crawl against canned answers, recording every request made.
fn run<F, G>(roots: &[&str], meta: F, children: G) -> (Vec<SourceDoc>, Vec<String>)
where
    F: Fn(&str) -> PageMeta,
    G: Fn(&str, Option<&str>) -> BlockListResponse,
{
    let mut crawl = Crawl::new(roots.iter().map(|r| r.to_string()).collect());
    let mut requests = Vec::new();
    for _ in 0..1000 {
        match crawl.next_action() {
            CrawlAction::FetchPageMeta(id) => {
                requests.push(format!("GET /v1/pages/{id}"));
                crawl.on_page_meta(meta(&id));
            }
            CrawlAction::FetchChildren { block_id, cursor } => {
                match &cursor {
                    Some(c) => requests.push(format!("GET /v1/blocks/{block_id}/children?start_cursor={c}")),
                    None => requests.push(format!("GET /v1/blocks/{block_id}/children")),
                }
                crawl.on_children(children(&block_id, cursor.as_deref()));
            }
            CrawlAction::Finished => return (crawl.into_docs(), requests),
        }
    }
    panic!("crawl did not finish");
}

fn page_meta(id: &str) -> PageMeta {
    match id {
        "page-A" => PageMeta {
            title: "Page A".to_string(),
            url: "https://notion.so/page-A".to_string(),
        },
        "child-B" => PageMeta {
            title: "Child B".to_string(),
            url: "https://notion.so/child-B".to_string(),
        },
        other => panic!("unexpected page {other}"),
    }
}

#[test]
fn fetch_returns_source_doc_for_single_page() {
    let (docs, _) = run(&["page-A"], page_meta, |id, _| {
        assert_eq!(id, "page-A");
        listing(
            false,
            None,
            vec![heading_1("b1", "Title"), paragraph("b2", "hello")],
        )
    });

    assert_eq!(docs.len(), 1);
    let doc = &docs[0];
    assert_eq!(doc.page_id, "page-A");
    assert_eq!(doc.title, "Page A");
    assert_eq!(doc.url, "https://notion.so/page-A");
    assert_eq!(doc.blocks.len(), 2);
    assert!(doc.blocks[0].kind.is_heading());
    assert_eq!(doc.blocks[0].text, "Title");
    assert_eq!(doc.blocks[1].text, "hello");
    assert!(matches!(doc.blocks[1].kind, BlockKind::Paragraph));
}

#[test]
fn fetch_recursively_follows_child_pages() {
    let (docs, _) = run(&["page-A"], page_meta, |id, _| match id {
        "page-A" => listing(
            false,
            None,
            vec![paragraph("b1", "parent body"), child_page("child-B", "Child B")],
        ),
        "child-B" => listing(false, None, vec![paragraph("b2", "child body")]),
        other => panic!("unexpected listing {other}"),
    });

    assert_eq!(docs.len(), 2);

    let parent = docs.iter().find(|d| d.page_id == "page-A").unwrap();
    let child = docs.iter().find(|d| d.page_id == "child-B").unwrap();

    // child_page block must NOT appear in the parent's blocks
    assert_eq!(parent.blocks.len(), 1);
    assert_eq!(parent.blocks[0].text, "parent body");

    assert_eq!(child.title, "Child B");
    assert_eq!(child.blocks.len(), 1);
    assert_eq!(child.blocks[0].text, "child body");
}

#[test]
fn fetch_handles_pagination() {
    let (docs, requests) = run(&["page-A"], page_meta, |id, cursor| {
        assert_eq!(id, "page-A");
        match cursor {
            None => listing(true, Some("cursor-2"), vec![paragraph("b1", "page 1")]),
            Some("cursor-2") => listing(false, None, vec![paragraph("b2", "page 2")]),
            Some(other) => panic!("unexpected cursor {other}"),
        }
    });

    assert_eq!(docs.len(), 1);
    let blocks = &docs[0].blocks;
    assert_eq!(blocks.len(), 2);
    assert_eq!(blocks[0].text, "page 1");
    assert_eq!(blocks[1].text, "page 2");
    assert_eq!(
        requests,
        vec![
            "GET /v1/pages/page-A".to_string(),
            "GET /v1/blocks/page-A/children".to_string(),
            "GET /v1/blocks/page-A/children?start_cursor=cursor-2".to_string(),
        ]
    );
}

#[test]
fn fetch_folds_nested_bullets_into_parent_doc() {
    let (docs, _) = run(&["page-A"], page_meta, |id, _| match id {
        "page-A" => listing(
            false,
            None,
            vec![
                bullet("bullet-parent", "parent bullet", true),
                paragraph("p-after", "after"),
            ],
        ),
        "bullet-parent" => listing(false, None, vec![bullet("bullet-child", "nested bullet", false)]),
        other => panic!("unexpected listing {other}"),
    });

    assert_eq!(docs.len(), 1);
    let blocks = &docs[0].blocks;
    assert_eq!(blocks.len(), 3);
    // Pre-order DFS: parent → nested child → next sibling.
    assert_eq!(blocks[0].text, "parent bullet");
    assert!(matches!(blocks[0].kind, BlockKind::BulletedListItem));
    assert_eq!(blocks[1].text, "nested bullet");
    assert!(matches!(blocks[1].kind, BlockKind::BulletedListItem));
    assert_eq!(blocks[2].text, "after");
    assert!(matches!(blocks[2].kind, BlockKind::Paragraph));
}

#[test]
fn empty_crawl_finishes_at_once() {
    let (docs, requests) = run(&[], page_meta, |_, _| panic!("no listing expected"));
    assert!(docs.is_empty());
    assert!(requests.is_empty());
}

#[test]
fn last_root_page_is_crawled_first() {
    let (docs, _) = run(
        &["page-A", "child-B"],
        page_meta,
        |id, _| listing(false, None, vec![paragraph("x", id)]),
    );
    let order: Vec<&str> = docs.iter().map(|d| d.page_id.as_str()).collect();
    assert_eq!(order, vec!["child-B", "page-A"]);
}

#[test]
fn unknown_and_empty_blocks_are_skipped() {
    let (docs, _) = run(&["page-A"], page_meta, |_, _| {
        listing(
            false,
            None,
            vec![
                Block {
                    id: "u".to_string(),
                    has_children: false,
                    body: BlockBody::Unknown("{\"type\":\"divider\"}".to_string()),
                },
                paragraph("e", ""),
                paragraph("k", "kept"),
            ],
        )
    });
    assert_eq!(docs[0].blocks.len(), 1);
    assert_eq!(docs[0].blocks[0].text, "kept");
}

#[test]
fn answers_that_were_not_asked_for_change_nothing() {
    let mut crawl = Crawl::new(vec!["page-A".to_string()]);
    crawl.on_children(listing(false, None, vec![paragraph("b", "stray")]));
    crawl.on_page_meta(page_meta("page-A"));
    match crawl.next_action() {
        CrawlAction::FetchPageMeta(id) => assert_eq!(id, "page-A"),
        _ => panic!("expected the metadata request"),
    }
}

#[test]
fn a_root_given_twice_is_crawled_once() {
    let (docs, requests) = run(&["page-A", "page-A"], page_meta, |_, _| {
        listing(false, None, vec![paragraph("b", "body")])
    });
    assert_eq!(docs.len(), 1);
    assert_eq!(docs[0].page_id, "page-A");
    assert_eq!(
        requests.iter().filter(|r| r.starts_with("GET /v1/pages/")).count(),
        1
    );
}

#[test]
fn a_cycle_of_child_pages_ends() {
    let (docs, _) = run(&["page-A"], page_meta, |id, _| match id {
        "page-A" => listing(false, None, vec![child_page("child-B", "Child B")]),
        "child-B" => listing(false, None, vec![child_page("page-A", "Page A")]),
        other => panic!("unexpected listing {other}"),
    });
    let ids: Vec<&str> = docs.iter().map(|d| d.page_id.as_str()).collect();
    assert_eq!(ids, vec!["page-A", "child-B"]);
}

#[test]
fn child_pages_are_followed_down_to_the_depth_cap() {
    // p0 -> p1 -> p2 -> ... each page holds the next one.
    let (docs, _) = run(
        &["p0"],
        |id| PageMeta {
            title: id.to_string(),
            url: format!("https://notion.so/{id}"),
        },
        |id, _| {
            let n: usize = id[1..].parse().unwrap();
            listing(false, None, vec![child_page(&format!("p{}", n + 1), "next")])
        },
    );
    assert_eq!(docs.len(), MAX_PAGE_DEPTH + 1);
    assert_eq!(docs.last().unwrap().page_id, format!("p{MAX_PAGE_DEPTH}"));
}
