use rag_personal::source::notion::{
    block_to_text_block, extract_text_blocks, join_rich, page_meta_from_response, Block, BlockBody,
    BlockListResponse, ChildPageBody, CodeBody, KnownBlock, PageProperty, PageResponse, RichText,
    RichTextHolder,
};
use rag_personal::source::BlockKind;

fn runs(parts: &[&str]) -> Vec<RichText> {
    parts
        .iter()
        .map(|p| RichText {
            plain_text: p.to_string(),
        })
        .collect()
}

fn block(body: KnownBlock) -> Block {
    Block {
        id: "b".to_string(),
        has_children: false,
        body: BlockBody::Known(body),
    }
}

#[test]
fn join_rich_concatenates_runs() {
    assert_eq!(join_rich(&runs(&["hello", " ", "world"])), "hello world");
    assert_eq!(join_rich(&[]), "");
}

#[test]
fn blocks_keep_text_and_kind() {
    let h2 = block(KnownBlock::Heading2 {
        heading_2: RichTextHolder {
            rich_text: runs(&["Sec", "tion"]),
        },
    });
    let tb = block_to_text_block(&h2).unwrap();
    assert_eq!(tb.text, "Section");
    assert_eq!(tb.kind, BlockKind::Heading(2));
    assert!(tb.heading_path.is_empty());

    let code = block(KnownBlock::Code {
        code: CodeBody {
            rich_text: runs(&["fn main() {}"]),
        },
    });
    let tb = block_to_text_block(&code).unwrap();
    assert_eq!(tb.kind, BlockKind::Code);
    assert_eq!(tb.text, "fn main() {}");

    let todo = block(KnownBlock::ToDo {
        to_do: RichTextHolder {
            rich_text: runs(&["buy milk"]),
        },
    });
    assert_eq!(block_to_text_block(&todo).unwrap().kind, BlockKind::ToDo);
}

#[test]
fn child_pages_unknown_and_empty_blocks_give_nothing() {
    let child = block(KnownBlock::ChildPage {
        child_page: ChildPageBody {
            title: "Child".to_string(),
        },
    });
    assert!(block_to_text_block(&child).is_none());
    let unknown = Block {
        id: "u".to_string(),
        has_children: false,
        body: BlockBody::Unknown("{}".to_string()),
    };
    assert!(block_to_text_block(&unknown).is_none());
    let empty = block(KnownBlock::Quote {
        quote: RichTextHolder { rich_text: vec![] },
    });
    assert!(block_to_text_block(&empty).is_none());
}

#[test]
fn extract_keeps_order_of_text_blocks() {
    let resp = BlockListResponse {
        has_more: false,
        next_cursor: None,
        results: vec![
            block(KnownBlock::Paragraph {
                paragraph: RichTextHolder {
                    rich_text: runs(&["one"]),
                },
            }),
            block(KnownBlock::Toggle {
                toggle: RichTextHolder { rich_text: vec![] },
            }),
            block(KnownBlock::NumberedListItem {
                numbered_list_item: RichTextHolder {
                    rich_text: runs(&["two"]),
                },
            }),
        ],
    };
    let tbs = extract_text_blocks(&resp);
    assert_eq!(tbs.len(), 2);
    assert_eq!(tbs[0].text, "one");
    assert_eq!(tbs[1].text, "two");
    assert_eq!(tbs[1].kind, BlockKind::NumberedListItem);
}

#[test]
fn page_title_comes_from_the_title_property() {
    let resp = PageResponse {
        url: "https://notion.so/page-A".to_string(),
        properties: vec![
            ("Tags".to_string(), PageProperty::Other),
            (
                "Name".to_string(),
                PageProperty::Title {
                    title: runs(&["Page ", "A"]),
                },
            ),
        ],
    };
    let meta = page_meta_from_response(resp);
    assert_eq!(meta.title, "Page A");
    assert_eq!(meta.url, "https://notion.so/page-A");

    let untitled = PageResponse {
        url: "u".to_string(),
        properties: vec![("Tags".to_string(), PageProperty::Other)],
    };
    assert_eq!(page_meta_from_response(untitled).title, "");
}

#[test]
fn callouts_are_read_as_paragraphs() {
    let callout = block(KnownBlock::Callout {
        callout: RichTextHolder {
            rich_text: runs(&["Remember ", "this"]),
        },
    });
    let tb = block_to_text_block(&callout).unwrap();
    assert_eq!(tb.text, "Remember this");
    assert_eq!(tb.kind, BlockKind::Paragraph);
    assert!(tb.heading_path.is_empty());
}
