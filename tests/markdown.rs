use beautiful_mermaid_rs::markdown::{line_kind, scan_mermaid_blocks, BlockScan, LineKind, MermaidBlock};

fn lines(text: &str) -> Vec<String> {
    text.lines().map(|l| l.to_string()).collect()
}

#[test]
fn line_kinds() {
    assert_eq!(line_kind("```mermaid"), LineKind::MermaidFence);
    assert_eq!(line_kind("```mermaid extra"), LineKind::MermaidFence);
    assert_eq!(line_kind("```rust"), LineKind::Fence);
    assert_eq!(line_kind("```"), LineKind::Fence);
    assert_eq!(line_kind("`` `"), LineKind::Text);
    assert_eq!(line_kind(""), LineKind::Text);
}

#[test]
fn finds_mermaid_blocks_and_skips_others() {
    let doc = lines("# Title\n```rust\nfn x() {}\n```\n  ```mermaid\ngraph LR\nA --> B\n```\ntext\n```mermaid\n```\n");
    match scan_mermaid_blocks(&doc) {
        BlockScan::Closed(blocks) => {
            assert_eq!(
                blocks,
                vec![
                    MermaidBlock { start_line: 5, first: 5, end: 7 },
                    MermaidBlock { start_line: 10, first: 10, end: 10 },
                ]
            );
        }
        other => panic!("unexpected {other:?}"),
    }
}

#[test]
fn reports_unclosed_block() {
    let doc = lines("intro\n```mermaid\ngraph TD\n");
    assert_eq!(scan_mermaid_blocks(&doc), BlockScan::Unclosed { start_line: 2 });
    assert_eq!(scan_mermaid_blocks(&lines("nothing here")), BlockScan::Closed(vec![]));
}

#[test]
fn fences_after_unicode_whitespace_count() {
    let doc = vec![
        "\u{3000}\t```mermaid".to_string(),
        "graph TD".to_string(),
        "\u{a0}```".to_string(),
    ];
    assert_eq!(
        scan_mermaid_blocks(&doc),
        BlockScan::Closed(vec![MermaidBlock { start_line: 1, first: 1, end: 2 }])
    );
}
