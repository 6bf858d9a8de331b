use equals::lang::{split_line, CodeLine};

/// Very simple assignment detector for tests.
/// Returns the variable name before '=' if one exists.
fn extract_assignment_var(code: &str) -> Option<&str> {
    if let Some(eq_pos) = code.find('=') {
        let (left, right) = code.split_at(eq_pos);
        let var = left.trim();
        let rhs = right.trim().trim_start_matches('=').trim();

        if !var.is_empty() && !rhs.is_empty() {
            return Some(var);
        }
    }
    None
}

#[test]
fn test_normal_code() {
    let line = "a = 1 + b # comment";
    let result = split_line(line, "#=", "#", extract_assignment_var);

    assert_eq!(
        result,
        CodeLine::Code {
            code: "a = 1 + b # comment"
        }
    );
}

#[test]
fn test_eval() {
    let line = "b + 2 #= 6 # comment";
    let result = split_line(line, "#=", "#", extract_assignment_var);

    assert_eq!(
        result,
        CodeLine::Eval {
            code: "b + 2",
            marker: "#=",
            result: Some("6"),
            comment: Some("# comment"),
        }
    );
}

#[test]
fn test_eval_no_result() {
    let line = "b + 2 #= # comment";
    let result = split_line(line, "#=", "#", extract_assignment_var);

    assert_eq!(
        result,
        CodeLine::Eval {
            code: "b + 2",
            marker: "#=",
            result: None,
            comment: Some("# comment"),
        }
    );
}

#[test]
fn test_eval_assignment() {
    let line = "c = b + 2 #= 6 # comment";
    let result = split_line(line, "#=", "#", extract_assignment_var);

    assert_eq!(
        result,
        CodeLine::EvalAssignment {
            var: "c",
            code: "c = b + 2",
            marker: "#=",
            result: Some("6"),
            comment: Some("# comment"),
        }
    );
}

#[test]
fn test_eval_assignment_no_comment() {
    let line = "x = y + 3 #= 10";
    let result = split_line(line, "#=", "#", extract_assignment_var);

    assert_eq!(
        result,
        CodeLine::EvalAssignment {
            var: "x",
            code: "x = y + 3",
            marker: "#=",
            result: Some("10"),
            comment: None,
        }
    );
}

#[test]
fn test_eval_with_spaces() {
    let line = "  d + 4   #=    12    # some note   ";
    let result = split_line(line, "#=", "#", extract_assignment_var);

    assert_eq!(
        result,
        CodeLine::Eval {
            code: "d + 4",
            marker: "#=",
            result: Some("12"),
            comment: Some("# some note"),
        }
    );
}

#[test]
fn test_empty_line() {
    let line = "";
    let result = split_line(line, "#=", "#", extract_assignment_var);
    assert_eq!(result, CodeLine::Code { code: "" });
}

#[test]
fn assignment_line_reconstructs_with_new_result() {
    let parsed = split_line("c = b + 2 #= 6 # comment", "#=", "#", extract_assignment_var);
    assert_eq!(parsed.reconstruct("8"), "c = b + 2 #= 8 # comment");
}

#[test]
fn plain_code_reconstructs_verbatim() {
    let parsed = split_line("  a = 1  ", "#=", "#", extract_assignment_var);
    assert_eq!(parsed.reconstruct("ignored"), "a = 1");
}

#[test]
fn marker_without_expression_is_an_empty_eval() {
    let parsed = split_line("#= 3", "#=", "#", extract_assignment_var);
    assert_eq!(
        parsed,
        CodeLine::Eval { code: "", marker: "#=", result: Some("3"), comment: None }
    );
}

#[test]
fn reparsing_a_reconstruction_yields_the_new_result() {
    let parsed = split_line("b + 2 #= 6 # note", "#=", "#", extract_assignment_var);
    let rebuilt = parsed.reconstruct("42");
    match split_line(&rebuilt, "#=", "#", extract_assignment_var) {
        CodeLine::Eval { result, comment, .. } => {
            assert_eq!(result, Some("42"));
            assert_eq!(comment, Some("# note"));
        }
        other => panic!("unexpected {other:?}"),
    }
}
