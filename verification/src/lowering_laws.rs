//! How lowering reports the pieces it could not parse.
use vstd::prelude::*;
use crate::ast::{DiagnosticSeverity, TextRange};
use crate::ir::{
    after_index, bound_text, infix_combine, lex_all, lower_view, parse_args, parse_bp, parse_call,
    parse_indices, parse_infix, parse_postfix, parse_prefix, parse_subscript, piece_diags, piece_expr, ExprView, Parsed, StatementView, TokenView,
};

verus! {

/// The number of `Unsupported` nodes in an expression.
pub open spec fn unsupported_nodes(e: ExprView) -> nat
    decreases e, 1int,
{
    match e {
        ExprView::Unsupported(_) => 1,
        ExprView::Unary { expr, .. } => unsupported_nodes(*expr),
        ExprView::Binary { left, right, .. } => unsupported_nodes(*left) + unsupported_nodes(*right),
        ExprView::Compare { left, right, .. } => unsupported_nodes(*left) + unsupported_nodes(*right),
        ExprView::Call { func, args } => {
            proof {
                assert(decreases_to!(e => args));
            }
            unsupported_nodes(*func) + unsupported_nodes_in(args)
        },
        ExprView::Attribute { value, .. } => unsupported_nodes(*value),
        ExprView::Subscript { value, indices } => {
            proof {
                assert(decreases_to!(e => indices));
            }
            unsupported_nodes(*value) + unsupported_nodes_in(indices)
        },
        ExprView::Group(inner) => unsupported_nodes(*inner),
        _ => 0,
    }
}

/// The number of `Unsupported` nodes in a list of expressions.
pub open spec fn unsupported_nodes_in(s: Seq<ExprView>) -> nat
    decreases s, 0int,
{
    if s.len() == 0 {
        0
    } else {
        proof {
            assert(decreases_to!(s => s[s.len() - 1]));
            assert(decreases_to!(s => s.subrange(0, s.len() - 1)));
        }
        unsupported_nodes_in(s.subrange(0, s.len() - 1)) + unsupported_nodes(s[s.len() - 1])
    }
}

/// The number of `Unsupported` nodes in a statement.
pub open spec fn statement_unsupported(st: StatementView) -> nat {
    match st {
        StatementView::Assignment { target, value } => unsupported_nodes(target) + unsupported_nodes(
            value,
        ),
        StatementView::Expr(e) => unsupported_nodes(e),
    }
}

/// A parse result whose expression, if any, holds no `Unsupported` node.
pub open spec fn clean(r: Parsed) -> bool {
    r matches Ok((e, _)) ==> unsupported_nodes(e) == 0
}

proof fn lemma_push(s: Seq<ExprView>, e: ExprView)
    ensures
        unsupported_nodes_in(s.push(e)) == unsupported_nodes_in(s) + unsupported_nodes(e),
{
    assert(s.push(e).subrange(0, s.len() as int) =~= s);
}

proof fn lemma_prefix(t: Seq<TokenView>, i: int)
    ensures
        clean(parse_prefix(t, i)),
    decreases t.len() - i, 0int,
{
    if 0 <= i < t.len() {
        match t[i] {
            TokenView::Plus => lemma_bp(t, i + 1, 5),
            TokenView::Minus => lemma_bp(t, i + 1, 5),
            TokenView::LParen => lemma_bp(t, i + 1, 0),
            _ => {},
        }
    }
}

proof fn lemma_bp(t: Seq<TokenView>, i: int, min_bp: u8)
    ensures
        clean(parse_bp(t, i, min_bp)),
    decreases t.len() - i, 1int,
{
    if 0 <= i < t.len() {
        lemma_prefix(t, i);
        if let Ok((lhs, j)) = parse_prefix(t, i) {
            if i < j <= t.len() {
                lemma_postfix(t, lhs, j);
                if let Ok((lhs2, k)) = parse_postfix(t, lhs, j) {
                    if j <= k <= t.len() {
                        lemma_infix(t, lhs2, k, min_bp);
                    }
                }
            }
        }
    }
}

proof fn lemma_postfix(t: Seq<TokenView>, lhs: ExprView, i: int)
    requires
        unsupported_nodes(lhs) == 0,
    ensures
        clean(parse_postfix(t, lhs, i)),
    decreases t.len() - i, 4int,
{
    if 0 <= i <= t.len() {
        match crate::ir::peek(t, i) {
            TokenView::LParen => {
                lemma_call(t, lhs, i);
                if let Ok((e, j)) = parse_call(t, lhs, i) {
                    if i < j <= t.len() {
                        lemma_postfix(t, e, j);
                    }
                }
            },
            TokenView::LBracket => {
                lemma_subscript(t, lhs, i);
                if let Ok((e, j)) = parse_subscript(t, lhs, i) {
                    if i < j <= t.len() {
                        lemma_postfix(t, e, j);
                    }
                }
            },
            TokenView::Dot => {
                if let TokenView::Name(a) = crate::ir::peek(t, i + 1) {
                    if i + 2 <= t.len() {
                        lemma_postfix(t, ExprView::Attribute { value: Box::new(lhs), attr: a }, i + 2);
                    }
                }
            },
            _ => {},
        }
    }
}

proof fn lemma_infix(t: Seq<TokenView>, lhs: ExprView, i: int, min_bp: u8)
    requires
        unsupported_nodes(lhs) == 0,
    ensures
        clean(parse_infix(t, lhs, i, min_bp)),
    decreases t.len() - i, 0int,
{
    if 0 <= i <= t.len() {
        if let Some((lbp, rbp)) = crate::ir::infix_power(crate::ir::peek(t, i)) {
            if lbp >= min_bp {
                lemma_bp(t, i + 1, rbp);
                if let Ok((rhs, j)) = parse_bp(t, i + 1, rbp) {
                    if i < j <= t.len() {
                        let c = infix_combine(crate::ir::peek(t, i), lhs, rhs);
                        assert(unsupported_nodes(c) == 0);
                        lemma_infix(t, c, j, min_bp);
                    }
                }
            }
        }
    }
}

proof fn lemma_call(t: Seq<TokenView>, func: ExprView, i: int)
    requires
        unsupported_nodes(func) == 0,
    ensures
        clean(parse_call(t, func, i)),
    decreases t.len() - i, 3int,
{
    if 0 <= i < t.len() && t[i] is LParen {
        if crate::ir::peek(t, i + 1) is RParen {
            assert(unsupported_nodes_in(Seq::<ExprView>::empty()) == 0);
        } else {
            assert(unsupported_nodes_in(Seq::<ExprView>::empty()) == 0);
            lemma_args(t, func, seq![], i + 1);
        }
    }
}

proof fn lemma_args(t: Seq<TokenView>, func: ExprView, args: Seq<ExprView>, i: int)
    requires
        unsupported_nodes(func) == 0,
        unsupported_nodes_in(args) == 0,
    ensures
        clean(parse_args(t, func, args, i)),
    decreases t.len() - i, 2int,
{
    if 0 <= i < t.len() {
        lemma_bp(t, i, 0);
        if let Ok((e, j)) = parse_bp(t, i, 0) {
            if i < j <= t.len() {
                lemma_push(args, e);
                if crate::ir::peek(t, j) is Comma && !(crate::ir::peek(t, j + 1) is RParen) {
                    lemma_args(t, func, args.push(e), j + 1);
                }
            }
        }
    }
}

proof fn lemma_subscript(t: Seq<TokenView>, value: ExprView, i: int)
    requires
        unsupported_nodes(value) == 0,
    ensures
        clean(parse_subscript(t, value, i)),
    decreases t.len() - i, 3int,
{
    assert(unsupported_nodes_in(Seq::<ExprView>::empty()) == 0);
    if 0 <= i < t.len() && t[i] is LBracket && !(crate::ir::peek(t, i + 1) is RBracket) {
        lemma_indices(t, value, seq![], i + 1);
    }
}

proof fn lemma_indices(t: Seq<TokenView>, value: ExprView, idx: Seq<ExprView>, i: int)
    requires
        unsupported_nodes(value) == 0,
        unsupported_nodes_in(idx) == 0,
    ensures
        clean(parse_indices(t, value, idx, i)),
    decreases t.len() - i, 2int,
{
    if 0 <= i < t.len() {
        lemma_bp(t, i, 0);
        if let Ok((e, j)) = parse_bp(t, i, 0) {
            if i < j <= t.len() {
                if crate::ir::peek(t, j) is Colon {
                    let left = bound_text(e);
                    if !(crate::ir::peek(t, j + 1) is Comma || crate::ir::peek(t, j + 1) is RBracket) {
                        lemma_bp(t, j + 1, 0);
                        if let Ok((e2, k)) = parse_bp(t, j + 1, 0) {
                            if j + 1 < k <= t.len() {
                                let lit = ExprView::Literal(left + seq![':'] + bound_text(e2));
                                lemma_push(idx, lit);
                                lemma_after_index(t, value, idx.push(lit), k);
                            }
                        }
                    } else {
                        let lit = ExprView::Literal(left + seq![':']);
                        lemma_push(idx, lit);
                        lemma_after_index(t, value, idx.push(lit), j + 1);
                    }
                } else {
                    lemma_push(idx, e);
                    lemma_after_index(t, value, idx.push(e), j);
                }
            }
        }
    }
}

proof fn lemma_after_index(t: Seq<TokenView>, value: ExprView, idx: Seq<ExprView>, j: int)
    requires
        unsupported_nodes(value) == 0,
        unsupported_nodes_in(idx) == 0,
    ensures
        clean(after_index(t, value, idx, j)),
    decreases t.len() - j, 0int,
{
    if 0 <= j <= t.len() && crate::ir::peek(t, j) is Comma && !(crate::ir::peek(t, j + 1) is RBracket) {
        lemma_indices(t, value, idx, j + 1);
    }
}

proof fn lemma_piece(piece: Seq<char>, range: TextRange)
    ensures
        unsupported_nodes(piece_expr(piece)) == piece_diags(piece, range).len(),
        forall|k: int|
            0 <= k < piece_diags(piece, range).len() ==> (#[trigger] piece_diags(piece, range)[k]).code
                == "mathdocs::unsupported"@ && piece_diags(piece, range)[k].severity
                == DiagnosticSeverity::Warning && piece_diags(piece, range)[k].range == range,
{
    if let Ok(t) = lex_all(piece, 0) {
        lemma_bp(t, 0, 0);
    }
}

/// Lowering reports each piece that it could not parse once: every diagnostic is an
/// `mathdocs::unsupported` warning at the statement's range, and there are as many as there
/// are `Unsupported` nodes in the lowered statement (the parser itself makes none).
pub proof fn law_lowering_reports_each_unsupported_piece(source: Seq<char>, range: TextRange)
    ensures
        ({
            let (st, ds) = lower_view(source, range);
            &&& ds.len() == statement_unsupported(st)
            &&& forall|k: int|
                0 <= k < ds.len() ==> (#[trigger] ds[k]).code == "mathdocs::unsupported"@
                    && ds[k].severity == DiagnosticSeverity::Warning && ds[k].range == range
        }),
{
    let clean_text = crate::ir::clean_statement(source);
    match crate::ir::split_assignment(clean_text) {
        Some((l, r)) => {
            lemma_piece(l, range);
            lemma_piece(r, range);
            let ds = piece_diags(l, range) + piece_diags(r, range);
            assert forall|k: int| 0 <= k < ds.len() implies (#[trigger] ds[k]).code == "mathdocs::unsupported"@
                && ds[k].severity == DiagnosticSeverity::Warning && ds[k].range == range by {
                if k >= piece_diags(l, range).len() {
                    assert(ds[k] == piece_diags(r, range)[k - piece_diags(l, range).len()]);
                }
            }
        },
        None => match crate::ir::split_top(clean_text, "=="@) {
            Some((l, r)) => {
                lemma_piece(l, range);
                lemma_piece(r, range);
                let ds = piece_diags(l, range) + piece_diags(r, range);
                assert forall|k: int| 0 <= k < ds.len() implies (#[trigger] ds[k]).code
                    == "mathdocs::unsupported"@ && ds[k].severity == DiagnosticSeverity::Warning
                    && ds[k].range == range by {
                    if k >= piece_diags(l, range).len() {
                        assert(ds[k] == piece_diags(r, range)[k - piece_diags(l, range).len()]);
                    }
                }
            },
            None => lemma_piece(clean_text, range),
        },
    }
}

} // verus!
