use mathrender::ast::TextRange;
use mathrender::ir::{lower_statement, qualified_name, BinaryOp, Expr, Statement};

#[test]
fn lowers_assignment_and_nested_calls() {
    let lowered = lower_statement(
        "z = abs(theta - mu) / sqrt(sigma)",
        TextRange { start: 0, end: 0 },
    );
    assert!(lowered.diagnostics.is_empty());
    assert!(matches!(lowered.statement, Statement::Assignment { .. }));
}

#[test]
fn lowers_equations_and_respects_precedence() {
    let lowered = lower_statement("a + b * c == d", TextRange { start: 0, end: 0 });
    assert!(lowered.diagnostics.is_empty());
    match lowered.statement {
        Statement::Expr(Expr::Compare { left, .. }) => match *left {
            Expr::Binary { op: BinaryOp::Add, right, .. } => {
                assert!(matches!(*right, Expr::Binary { op: BinaryOp::Mul, .. }));
            }
            other => panic!("unexpected left side {other:?}"),
        },
        other => panic!("unexpected statement {other:?}"),
    }
}

#[test]
fn power_is_right_associative() {
    let lowered = lower_statement("a ** b ** c", TextRange { start: 0, end: 0 });
    match lowered.statement {
        Statement::Expr(Expr::Binary { op: BinaryOp::Pow, left, right }) => {
            assert!(matches!(*left, Expr::Name(ref n) if n == "a"));
            assert!(matches!(*right, Expr::Binary { op: BinaryOp::Pow, .. }));
        }
        other => panic!("unexpected statement {other:?}"),
    }
}

#[test]
fn comments_are_cut_outside_strings() {
    let lowered = lower_statement("x = '#' # note", TextRange { start: 0, end: 0 });
    match lowered.statement {
        Statement::Assignment { value, .. } => {
            assert!(matches!(value, Expr::StringLiteral(ref s) if s == "#"));
        }
        other => panic!("unexpected statement {other:?}"),
    }
}

#[test]
fn unparsable_pieces_become_unsupported_with_a_warning() {
    let range = TextRange { start: 3, end: 9 };
    let lowered = lower_statement("x = (1 +", range);
    assert_eq!(lowered.diagnostics.len(), 1);
    assert_eq!(lowered.diagnostics[0].code, "mathdocs::unsupported");
    assert_eq!(lowered.diagnostics[0].message, "expected expression, found Eof");
    assert_eq!(lowered.diagnostics[0].range, range);
    match lowered.statement {
        Statement::Assignment { value, .. } => {
            assert!(matches!(value, Expr::Unsupported(ref s) if s == "(1 +"));
        }
        other => panic!("unexpected statement {other:?}"),
    }
}

#[test]
fn unexpected_tokens_are_reported_with_their_debug_text() {
    let lowered = lower_statement("a b", TextRange { start: 0, end: 0 });
    assert_eq!(lowered.diagnostics.len(), 1);
    assert_eq!(lowered.diagnostics[0].message, "unexpected token Name(\"b\")");
}

#[test]
fn comparison_operators_are_not_assignments() {
    let lowered = lower_statement("a <= b", TextRange { start: 0, end: 0 });
    assert!(matches!(lowered.statement, Statement::Expr(_)));
}

#[test]
fn slices_become_literals() {
    let lowered = lower_statement("x[1:n]", TextRange { start: 0, end: 0 });
    match lowered.statement {
        Statement::Expr(Expr::Subscript { indices, .. }) => {
            assert_eq!(indices.len(), 1);
            assert!(matches!(indices[0], Expr::Literal(ref s) if s == "1:n"));
        }
        other => panic!("unexpected statement {other:?}"),
    }
}

#[test]
fn qualified_names_join_attribute_chains() {
    let lowered = lower_statement("np.linalg.norm(x)", TextRange { start: 0, end: 0 });
    match lowered.statement {
        Statement::Expr(Expr::Call { func, .. }) => {
            assert_eq!(qualified_name(&func).as_deref(), Some("np.linalg.norm"));
        }
        other => panic!("unexpected statement {other:?}"),
    }
    assert_eq!(qualified_name(&Expr::Literal("1".to_string())), None);
}

#[test]
fn unreadable_characters_make_the_side_unsupported() {
    let lowered = lower_statement("y = a + ~b", TextRange { start: 0, end: 0 });
    match lowered.statement {
        Statement::Assignment { value, .. } => {
            assert!(matches!(value, Expr::Unsupported(ref t) if t == "a + ~b"));
        }
        other => panic!("unexpected statement {other:?}"),
    }
    assert_eq!(lowered.diagnostics.len(), 1);
    assert_eq!(lowered.diagnostics[0].code, "mathdocs::unsupported");
    assert_eq!(lowered.diagnostics[0].message, "unsupported token near \"~b\"");
}
