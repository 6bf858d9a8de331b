use std::cell::Cell;

use equals::document::{Block, BlockId, CodeBlockUpdate, Document, Line};

fn code_line(number: usize, content: &str) -> Line {
    Line {
        number,
        blocks: vec![Block::Code((0, content.len()), content.to_string())],
    }
}

#[test]
fn evaluate_with_applies_partial_updates() {
    let mut doc = Document {
        lines: vec![code_line(1, "x = 1"), code_line(2, "x + 1 #=")],
    };

    doc.evaluate_with(|blocks| {
        assert_eq!(blocks.len(), 2);
        assert_eq!(blocks[0].id.index(), 0);
        assert_eq!(blocks[1].id.index(), 1);
        assert_eq!(blocks[1].content, "x + 1 #=");

        vec![CodeBlockUpdate {
            id: blocks[1].id,
            content: "x + 1 #= 2".into(),
        }]
    });

    let line1 = &doc.lines[0].blocks[0];
    let line2 = &doc.lines[1].blocks[0];

    match line1 {
        Block::Code(_, text) => assert_eq!(text, "x = 1"),
        _ => panic!("expected code block for line 1"),
    }

    match line2 {
        Block::Code(_, text) => assert_eq!(text, "x + 1 #= 2"),
        _ => panic!("expected code block for line 2"),
    }
}

#[test]
fn evaluate_with_keeps_original_when_no_updates() {
    let mut doc = Document {
        lines: vec![code_line(1, "print('hi')")],
    };

    doc.evaluate_with(|blocks| {
        assert_eq!(blocks.len(), 1);
        assert_eq!(blocks[0].content, "print('hi')");
        Vec::new()
    });

    match &doc.lines[0].blocks[0] {
        Block::Code(_, text) => assert_eq!(text, "print('hi')"),
        _ => panic!("expected code block to remain unchanged"),
    }
}

#[test]
fn evaluate_with_skips_when_no_code_blocks() {
    let mut doc = Document {
        lines: vec![Line {
            number: 1,
            blocks: vec![Block::Text((0, 4), "text".into())],
        }],
    };

    let called = Cell::new(false);
    doc.evaluate_with(|_| {
        called.set(true);
        Vec::new()
    });

    assert!(
        !called.get(),
        "evaluator should not be invoked when no code blocks exist"
    );

    match &doc.lines[0].blocks[0] {
        Block::Text(_, text) => assert_eq!(text, "text"),
        _ => panic!("text block should remain untouched"),
    }
}

fn code_of(block: &Block) -> &str {
    match block {
        Block::Code(_, c) => c,
        Block::Text(_, _) => panic!("expected a code span"),
    }
}

#[test]
fn partial_update_leaves_other_spans_byte_identical() {
    let mut doc = Document {
        lines: vec![code_line(1, "a=1"), code_line(2, "a+1")],
    };
    doc.merge_updates(&[CodeBlockUpdate {
        id: BlockId::new(1),
        content: "a+1 #= 2".to_string(),
    }]);
    assert_eq!(code_of(&doc.lines[0].blocks[0]), "a=1");
    assert_eq!(code_of(&doc.lines[1].blocks[0]), "a+1 #= 2");
}

#[test]
fn later_update_for_same_id_wins_and_unknown_ids_are_ignored() {
    let mut doc = Document {
        lines: vec![code_line(1, "a"), code_line(2, "b")],
    };
    doc.merge_updates(&[
        CodeBlockUpdate { id: BlockId::new(0), content: "first".to_string() },
        CodeBlockUpdate { id: BlockId::new(7), content: "nowhere".to_string() },
        CodeBlockUpdate { id: BlockId::new(0), content: "second".to_string() },
    ]);
    assert_eq!(code_of(&doc.lines[0].blocks[0]), "second");
    assert_eq!(code_of(&doc.lines[1].blocks[0]), "b");
}

#[test]
fn empty_update_list_is_a_no_op() {
    let mut doc = Document {
        lines: vec![
            Line {
                number: 1,
                blocks: vec![
                    Block::Text((0, 2), "a ".to_string()),
                    Block::Code((2, 3), "b".to_string()),
                ],
            },
            code_line(2, "c"),
        ],
    };
    let before = doc.reconstruct();
    doc.evaluate_with(|_| Vec::new());
    assert_eq!(doc.reconstruct(), before);
    assert_eq!(before, "a b\nc");
}

#[test]
fn code_blocks_are_numbered_densely_in_traversal_order() {
    let doc = Document {
        lines: vec![
            Line {
                number: 1,
                blocks: vec![
                    Block::Code((4, 5), "y".to_string()),
                    Block::Text((0, 4), "pre ".to_string()),
                    Block::Code((6, 7), "z".to_string()),
                ],
            },
            Line { number: 2, blocks: vec![] },
            code_line(3, "w"),
        ],
    };
    let views = doc.code_blocks();
    let ids: Vec<usize> = views.iter().map(|b| b.id.index()).collect();
    let contents: Vec<&str> = views.iter().map(|b| b.content).collect();
    assert_eq!(ids, vec![0, 1, 2]);
    assert_eq!(contents, vec!["y", "z", "w"]);
}

#[test]
fn reconstruct_orders_spans_by_start_column() {
    let doc = Document {
        lines: vec![Line {
            number: 1,
            blocks: vec![
                Block::Text((3, 4), "`".to_string()),
                Block::Code((1, 3), "ab".to_string()),
                Block::Text((0, 1), "`".to_string()),
            ],
        }],
    };
    assert_eq!(doc.reconstruct(), "`ab`");
}

#[test]
fn block_id_round_trips_its_index() {
    assert_eq!(BlockId::new(42).index(), 42);
}

#[test]
fn evaluator_that_cannot_run_is_fine_without_code() {
    let mut doc = Document {
        lines: vec![Line { number: 1, blocks: vec![Block::Text((0, 2), "hi".to_string())] }],
    };
    doc.evaluate_with(|_| -> Vec<CodeBlockUpdate> { panic!("must not be called") });
    assert_eq!(doc.reconstruct(), "hi");
}

#[test]
fn spans_and_updates_clone_to_equal_values() {
    let b = Block::Code((1, 3), "xy".to_string());
    match b.clone() {
        Block::Code(r, s) => {
            assert_eq!(r, (1, 3));
            assert_eq!(s, "xy");
        }
        Block::Text(_, _) => panic!("kind changed"),
    }
    let u = CodeBlockUpdate { id: BlockId::new(3), content: "z".to_string() };
    let c = u.clone();
    assert_eq!(c.id, u.id);
    assert_eq!(c.content, "z");
}
