use equals::document::Block;
use equals::parser::{Parser, PlainParser};

#[test]
fn test_plain_parser_roundtrip() {
    let src = "x = 1\ny = 2\n x + y #= 3";
    let parser = PlainParser {};

    let doc = parser.parse(src);
    let reconstructed = doc.reconstruct();

    assert_eq!(reconstructed.trim(), src.trim());

    // verify blocks
    for line in &doc.lines {
        assert_eq!(line.blocks.len(), 1);
        match &line.blocks[0] {
            Block::Code(_, code) => {
                assert!(!code.is_empty());
            }
            _ => panic!("expected code block"),
        }
    }
}

#[test]
fn plain_round_trip_is_exact() {
    let src = "a\n\n  b  \r\nc\n";
    let doc = PlainParser {}.parse(src);
    assert_eq!(doc.lines.len(), 5);
    assert_eq!(doc.reconstruct(), src);
}

#[test]
fn plain_parse_of_empty_text_is_one_empty_line() {
    let doc = PlainParser {}.parse("");
    assert_eq!(doc.lines.len(), 1);
    assert_eq!(doc.lines[0].number, 1);
    assert_eq!(doc.reconstruct(), "");
}
