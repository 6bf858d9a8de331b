use equals::document::{BlockId, CodeBlock};
use equals::lang::fend::FendLang;
use equals::lang::numbat::NumbatLang;
use equals::lang::python::PythonLang;
use equals::lang::{get_language_spec, Language, LanguagePack};

// The interpreters run outside the library: each test below states the request
// that the pack builds and hands the pack the reply that the interpreter prints
// for that request.

fn views(snapshots: &[String]) -> Vec<CodeBlock<'_>> {
    snapshots
        .iter()
        .enumerate()
        .map(|(idx, content)| CodeBlock {
            id: BlockId::new(idx),
            content: content.as_str(),
        })
        .collect()
}

fn apply(blocks: &mut [String], updates: Vec<equals::document::CodeBlockUpdate>) {
    for update in updates {
        if let Some(slot) = blocks.get_mut(update.id.index()) {
            *slot = update.content;
        }
    }
}

fn python_round(blocks: &mut [String], script: &str, reply: &str) {
    let lang = PythonLang::new();
    let snapshots: Vec<String> = blocks.to_vec();
    let code_blocks = views(&snapshots);
    assert_eq!(lang.script(&code_blocks), script);
    let updates = lang.evaluate(&code_blocks, reply);
    apply(blocks, updates);
}

fn numbat_round(blocks: &mut [String], expressions: Option<Vec<&str>>, reply: &str) {
    let lang = NumbatLang::new();
    let snapshots: Vec<String> = blocks.to_vec();
    let code_blocks = views(&snapshots);
    let request = lang.expressions(&code_blocks);
    assert_eq!(
        request,
        expressions.map(|e| e.into_iter().map(String::from).collect::<Vec<_>>())
    );
    if request.is_some() {
        let updates = lang.evaluate(&code_blocks, reply);
        apply(blocks, updates);
    }
}

fn fend_round(blocks: &mut [String], script: &str, reply: &str) {
    let lang = FendLang::new();
    let snapshots: Vec<String> = blocks.to_vec();
    let code_blocks = views(&snapshots);
    assert_eq!(lang.script(&code_blocks), Some(script.to_string()));
    let updates = lang.evaluate(&code_blocks, reply);
    apply(blocks, updates);
}

fn lines(code: &str) -> Vec<String> {
    code.lines()
        .filter(|l| !l.trim().is_empty())
        .map(|s| s.trim_end().to_string())
        .collect()
}

#[test]
fn python_evaluates_simple_expression() {
    let mut code_blocks = vec![String::from("2 + 3 #=")];
    python_round(&mut code_blocks, "print('##RESULT:0', 2 + 3)", "##RESULT:0 5\n");
    assert_eq!(code_blocks[0], "2 + 3 #= 5");
}

#[test]
fn preserves_comment_after_result() {
    let mut code_blocks = vec![String::from("10 + 2 #= 23 # expected")];
    python_round(&mut code_blocks, "print('##RESULT:0', 10 + 2)", "##RESULT:0 12\n");
    assert_eq!(code_blocks[0], "10 + 2 #= 12 # expected");
}

#[test]
fn handles_multiple_marked_lines() {
    let mut code_blocks = lines(
        r#"
x = 2
y = 3
x + y #=
x * y #=
"#,
    );

    python_round(
        &mut code_blocks,
        "x = 2\ny = 3\nprint('##RESULT:2', x + y)\nprint('##RESULT:3', x * y)",
        "##RESULT:2 5\n##RESULT:3 6\n",
    );

    let expected = lines(
        r#"
x = 2
y = 3
x + y #= 5
x * y #= 6
"#,
    );

    assert_eq!(
        code_blocks, expected,
        "\nExpected evaluated code blocks to match computed results.\nGot:\n{:#?}",
        code_blocks
    );
}

#[test]
fn ignores_unmarked_lines() {
    let mut code_blocks = lines(
        r#"
x = 1
y = 2
z = 3
x + y + z
"#,
    );

    let before = code_blocks.clone();
    python_round(&mut code_blocks, "x = 1\ny = 2\nz = 3\nx + y + z", "");
    assert_eq!(
        before, code_blocks,
        "Unmarked lines should remain unchanged"
    );
}

#[test]
fn complex_block_with_comments_and_results() {
    let mut code_blocks = lines(
        r#"
a = 4
b = 5
a * b #= 20 # precomputed
a + b #=
(a + b) * 2 #=
"#,
    );

    python_round(
        &mut code_blocks,
        "a = 4\nb = 5\nprint('##RESULT:2', a * b)\nprint('##RESULT:3', a + b)\nprint('##RESULT:4', (a + b) * 2)",
        "##RESULT:2 20\n##RESULT:3 9\n##RESULT:4 18\n",
    );

    let expected = lines(
        r#"
a = 4
b = 5
a * b #= 20 # precomputed
a + b #= 9
(a + b) * 2 #= 18
"#,
    );

    assert_eq!(
        code_blocks, expected,
        "\nComplex block did not evaluate as expected.\nGot:\n{:#?}",
        code_blocks
    );
}

#[test]
fn produces_valid_python_script() {
    let mut code_blocks = lines(
        r#"
values = [1, 2, 3]
sum(values) #=
"#,
    );

    python_round(
        &mut code_blocks,
        "values = [1, 2, 3]\nprint('##RESULT:1', sum(values))",
        "##RESULT:1 6\n",
    );

    let expected = lines(
        r#"
values = [1, 2, 3]
sum(values) #= 6
"#,
    );

    assert_eq!(
        code_blocks, expected,
        "\nPython script should have produced correct result.\nGot:\n{:#?}",
        code_blocks
    );
}

#[test]
fn assignment_in_equals_line() {
    let mut code_blocks = lines(
        r#"
a = 1
b = 2
c = a + b #=
"#,
    );

    python_round(
        &mut code_blocks,
        "a = 1\nb = 2\nc = a + b\nprint('##RESULT:2', c)",
        "##RESULT:2 3\n",
    );

    let expected = lines(
        r#"
a = 1
b = 2
c = a + b #= 3
"#,
    );

    assert_eq!(
        code_blocks, expected,
        "\nAssignment line did not evaluate as expected.\nGot:\n{:#?}",
        code_blocks
    );
}

#[test]
fn numbat_evaluates_simple_expression() {
    let mut code_blocks = vec![String::from("2 + 3 #=")];
    numbat_round(
        &mut code_blocks,
        Some(vec!["print(\"##RESULT:0 {2 + 3}\")"]),
        "##RESULT:0 5\n",
    );
    assert_eq!(code_blocks[0], "2 + 3 #= 5");
}

#[test]
fn handles_context_across_lines() {
    let mut code_blocks = lines(
        r#"
let x = 2
let y = x + 3 #=
y * 2 #=
"#,
    );

    numbat_round(
        &mut code_blocks,
        Some(vec![
            "let x = 2",
            "let y = x + 3",
            "print(\"##RESULT:1 {y}\")",
            "print(\"##RESULT:2 {y * 2}\")",
        ]),
        "##RESULT:1 5\n##RESULT:2 10\n",
    );

    let expected = lines(
        r#"
let x = 2
let y = x + 3 #= 5
y * 2 #= 10
"#,
    );

    assert_eq!(code_blocks, expected);
}

#[test]
fn preserves_unmarked_lines() {
    let mut code_blocks = lines(
        r#"
let x = 2
let y = 3
x * y
"#,
    );

    let before = code_blocks.clone();
    numbat_round(&mut code_blocks, None, "");
    assert_eq!(before, code_blocks);
}

#[test]
fn fend_evaluates_simple_expression() {
    let mut code_blocks = vec![String::from("2 + 3 #=")];
    fend_round(
        &mut code_blocks,
        "print \"##RESULT:0 \"; println (2 + 3)",
        "##RESULT:0 5\n",
    );
    assert_eq!(code_blocks[0], "2 + 3 #= 5");
}

#[test]
fn leaves_unmarked_lines() {
    let mut code_blocks = vec![
        String::from("usd = 5"),
        String::from("usd * 2 #="),
        String::from("usd"),
    ];
    fend_round(
        &mut code_blocks,
        "usd = 5; print \"##RESULT:1 \"; println (usd * 2); usd",
        "##RESULT:1 10\n5\n",
    );
    assert_eq!(code_blocks[0], "usd = 5");
    assert_eq!(code_blocks[1], "usd * 2 #= 10");
    assert_eq!(code_blocks[2], "usd");
}

#[test]
fn numbat_quotes_are_escaped_in_prints() {
    let snapshots = vec![String::from("\"a\" #=")];
    let blocks = views(&snapshots);
    assert_eq!(
        NumbatLang::new().expressions(&blocks),
        Some(vec![String::from("print(\"##RESULT:0 {\\\"a\\\"}\")")])
    );
}

#[test]
fn numbat_typed_let_binds_the_bare_name() {
    let snapshots = vec![String::from("let d: Length = 3 m #=")];
    let blocks = views(&snapshots);
    assert_eq!(
        NumbatLang::new().expressions(&blocks),
        Some(vec![
            String::from("let d: Length = 3 m"),
            String::from("print(\"##RESULT:0 {d}\")"),
        ])
    );
}

#[test]
fn python_reply_words_are_joined_by_single_spaces() {
    let snapshots = vec![String::from("t #=")];
    let blocks = views(&snapshots);
    let updates = PythonLang::new().evaluate(&blocks, "noise\r\n##RESULT: 0  (1,\t 2) \r\n");
    assert_eq!(updates.len(), 1);
    assert_eq!(updates[0].id.index(), 0);
    assert_eq!(updates[0].content, "t #= (1, 2)");
}

#[test]
fn replies_with_bad_or_out_of_range_indices_are_ignored() {
    let snapshots = vec![String::from("1 #=")];
    let blocks = views(&snapshots);
    let updates = FendLang::new().evaluate(
        &blocks,
        "##RESULT:x 1\n##RESULT:7 1\n##RESULT:99999999999999999999999 1\n",
    );
    assert!(updates.is_empty());
    let updates = FendLang::new().evaluate(&blocks, "##RESULT:+0 4\n##RESULT:0 5");
    assert_eq!(updates.len(), 1);
    assert_eq!(updates[0].content, "1 #= 5");
}

#[test]
fn unchanged_results_give_no_update() {
    let snapshots = vec![String::from("2 #= 2")];
    let blocks = views(&snapshots);
    assert!(NumbatLang::new().evaluate(&blocks, "##RESULT:0 2\n").is_empty());
}

#[test]
fn fend_script_is_none_when_empty() {
    let snapshots = vec![String::from("   "), String::from("#=")];
    let blocks = views(&snapshots);
    assert_eq!(FendLang::new().script(&blocks), None);
}

#[test]
fn language_lookup_by_name() {
    assert!(matches!(get_language_spec("python"), Some(LanguagePack::Python(_))));
    assert!(matches!(get_language_spec("numbat"), Some(LanguagePack::Numbat(_))));
    assert!(matches!(get_language_spec("fend"), Some(LanguagePack::Fend(_))));
    assert!(get_language_spec("Python").is_none());
    assert_eq!(PythonLang::new().name(), "python");
    assert_eq!(NumbatLang::new().eval_marker(), "#=");
}

#[test]
fn each_pack_is_named_after_its_language() {
    for name in ["python", "numbat", "fend"] {
        let pack = get_language_spec(name).unwrap();
        assert_eq!(pack.name(), name);
        assert_eq!(pack.eval_marker(), "#=");
    }
    assert_eq!(FendLang::new().name(), "fend");
}
