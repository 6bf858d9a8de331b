use equals::document::Block;
use equals::markdown::MarkdownParser;
use equals::parser::Parser;

fn mk_parser() -> MarkdownParser {
    MarkdownParser::new()
}

fn assert_text_block_eq(block: &Block, expected: &str) {
    match block {
        Block::Text(_, actual) => assert_eq!(
            actual, expected,
            "Expected text block `{expected}`, got `{actual}`"
        ),
        Block::Code(_, actual) => {
            panic!("Expected text block `{expected}`, but found CODE block `{actual}`")
        }
    }
}

fn assert_code_block_eq(block: &Block, expected: &str) {
    match block {
        Block::Code(_, actual) => assert_eq!(
            actual, expected,
            "Expected code block `{expected}`, got `{actual}`"
        ),
        Block::Text(_, actual) => {
            panic!("Expected code block `{expected}`, but found TEXT block `{actual}`")
        }
    }
}

#[test]
fn plain_text_line() {
    let doc = mk_parser().parse("Hello world!");
    assert_eq!(doc.lines.len(), 1);
    let blocks = &doc.lines[0].blocks;
    assert_eq!(blocks.len(), 1);
    assert_text_block_eq(&blocks[0], "Hello world!");
}

#[test]
fn inline_code_single() {
    let doc = mk_parser().parse("This has `inline` code.");
    let blocks = &doc.lines[0].blocks;

    let expected = vec![
        ("text", "This has `"),
        ("code", "inline"),
        ("text", "` code."),
    ];

    assert_eq!(blocks.len(), expected.len());
    for (block, (kind, content)) in blocks.iter().zip(expected) {
        match kind {
            "text" => assert_text_block_eq(block, content),
            "code" => assert_code_block_eq(block, content),
            _ => unreachable!(),
        }
    }
}

#[test]
fn multiple_inline_codes() {
    let doc = mk_parser().parse("`a` + `b` = `c`");
    let blocks = &doc.lines[0].blocks;

    let expected = vec![
        ("text", "`"),
        ("code", "a"),
        ("text", "` + `"),
        ("code", "b"),
        ("text", "` = `"),
        ("code", "c"),
        ("text", "`"),
    ];

    assert_eq!(blocks.len(), expected.len());
    for (block, (kind, content)) in blocks.iter().zip(expected) {
        match kind {
            "text" => assert_text_block_eq(block, content),
            "code" => assert_code_block_eq(block, content),
            _ => unreachable!(),
        }
    }
}

#[test]
fn unclosed_inline_code_becomes_text() {
    let doc = mk_parser().parse("This `never closes");
    let blocks = &doc.lines[0].blocks;
    assert_eq!(blocks.len(), 1);
    assert_text_block_eq(&blocks[0], "This `never closes");
}

#[test]
fn fenced_code_block_basic() {
    let src = "```\na = 1\nb = 2\n```";
    let doc = mk_parser().parse(src);

    let lines = &doc.lines;
    assert_eq!(lines.len(), 4);

    assert_text_block_eq(&lines[0].blocks[0], "```");
    assert_code_block_eq(&lines[1].blocks[0], "a = 1");
    assert_code_block_eq(&lines[2].blocks[0], "b = 2");
    assert_text_block_eq(&lines[3].blocks[0], "```");
}

#[test]
fn fenced_code_block_with_language_ignored() {
    let src = "```python\nprint('hi')\n```";
    let doc = mk_parser().parse(src);

    let lines = &doc.lines;
    assert_eq!(lines.len(), 3);

    assert_text_block_eq(&lines[0].blocks[0], "```python");
    assert_code_block_eq(&lines[1].blocks[0], "print('hi')");
    assert_text_block_eq(&lines[2].blocks[0], "```");
}

#[test]
fn reconstruct_roundtrip_inline_and_fenced() {
    let src = r#"
Text before.
```python
x = 1
y = 2
```
Inline `2 + 2` works."#;
    let doc = mk_parser().parse(src);
    let reconstructed = doc.reconstruct();
    assert_eq!(
        reconstructed.trim(),
        src.trim(),
        "Roundtrip failed.\nExpected:\n{}\nGot:\n{}",
        src,
        reconstructed
    );
}

#[test]
fn markdown_scenario_line_structure() {
    let src = "Text before.\n```python\nx = 1\ny = 2\n```\nInline `2 + 2` works.";
    let doc = mk_parser().parse(src);
    let lines = &doc.lines;
    assert_eq!(lines.len(), 6);
    assert_eq!(lines[0].blocks.len(), 1);
    assert_text_block_eq(&lines[0].blocks[0], "Text before.");
    assert_text_block_eq(&lines[1].blocks[0], "```python");
    assert_code_block_eq(&lines[2].blocks[0], "x = 1");
    assert_code_block_eq(&lines[3].blocks[0], "y = 2");
    assert_text_block_eq(&lines[4].blocks[0], "```");
    assert_eq!(lines[5].blocks.len(), 3);
    assert_text_block_eq(&lines[5].blocks[0], "Inline `");
    assert_code_block_eq(&lines[5].blocks[1], "2 + 2");
    assert_text_block_eq(&lines[5].blocks[2], "` works.");
    let numbers: Vec<usize> = lines.iter().map(|l| l.number).collect();
    assert_eq!(numbers, vec![1, 2, 3, 4, 5, 6]);
    assert_eq!(doc.reconstruct(), src);
}

#[test]
fn markdown_round_trip_is_exact_with_trailing_newline_and_blank_lines() {
    let src = "\n\n# Title\r\n  ```\nx`y\n ```\n`a``b`\n";
    let doc = mk_parser().parse(src);
    assert_eq!(doc.reconstruct(), src);
}

#[test]
fn empty_inline_code_is_an_empty_code_span() {
    let doc = mk_parser().parse("a``b");
    let blocks = &doc.lines[0].blocks;
    assert_eq!(blocks.len(), 3);
    assert_text_block_eq(&blocks[0], "a`");
    assert_code_block_eq(&blocks[1], "");
    assert_text_block_eq(&blocks[2], "`b");
    assert_eq!(doc.reconstruct(), "a``b");
}

#[test]
fn column_ranges_tile_the_line() {
    let doc = mk_parser().parse("ab `cd` e");
    let ranges: Vec<(usize, usize)> = doc.lines[0]
        .blocks
        .iter()
        .map(|b| match b {
            Block::Text(r, _) | Block::Code(r, _) => *r,
        })
        .collect();
    assert_eq!(ranges, vec![(0, 4), (4, 6), (6, 9)]);
}

#[test]
fn parse_line_toggles_fence_state() {
    let parser = mk_parser();
    let mut in_block = false;
    let fence = parser.parse_line(1, "  ```numbat", &mut in_block);
    assert!(in_block);
    assert_text_block_eq(&fence.blocks[0], "  ```numbat");
    let body = parser.parse_line(2, "`x`", &mut in_block);
    assert_eq!(body.blocks.len(), 1);
    assert_code_block_eq(&body.blocks[0], "`x`");
    parser.parse_line(3, "```", &mut in_block);
    assert!(!in_block);
}

#[test]
fn empty_prose_line_is_one_empty_text_span() {
    let parser = mk_parser();
    let mut in_block = false;
    let line = parser.parse_line(1, "", &mut in_block);
    assert_eq!(line.blocks.len(), 1);
    match &line.blocks[0] {
        Block::Text(range, text) => {
            assert_eq!(*range, (0, 0));
            assert_eq!(text, "");
        }
        Block::Code(_, _) => panic!("expected a text span"),
    }
    let doc = parser.parse("a\n\nb");
    assert_eq!(doc.lines[1].blocks.len(), 1);
    assert_text_block_eq(&doc.lines[1].blocks[0], "");
    assert_eq!(doc.reconstruct(), "a\n\nb");
}
