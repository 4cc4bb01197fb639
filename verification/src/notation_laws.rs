//! What the notation means: index contraction in `@` chains, the associativity of infix
//! operators, which decorators a `def` takes, and what `auto_name` commands switch.
use vstd::prelude::*;
use crate::ast::{RenderConfig, TextRange};
use crate::ir::{
    infix_combine, infix_power, parse_expression, BinaryOp, ExprView, StatementView, TokenView,
};
use crate::latex::{render_spec, render_statement_spec, symbol_indices, tensor_latex, ContextView, RenderOptions};
use crate::metadata::{decorator_functions, def_name_spec, inline_from, inline_step, MetadataView};
use crate::scan::{apply_config_spec, config_tokens, split_ws};
use crate::text::{find, replace_char, starts_with, trim};

verus! {

/// The chain `a @ b` of two tensors.
pub open spec fn matmul_of(a: Seq<char>, b: Seq<char>) -> ExprView {
    ExprView::Binary {
        op: BinaryOp::MatMul,
        left: Box::new(ExprView::Name(a)),
        right: Box::new(ExprView::Name(b)),
    }
}

/// Contraction: in `a @ b`, where the last index of tensor `a` is the first index of tensor
/// `b`, that index is summed over; the free indices are those of `a` without its last one,
/// then those of `b` without its first, and no warning is given. An assignment to a tensor
/// `y` puts exactly these free indices on `y` (`y = A @ x` with `A` over `i, j` and `x` over
/// `j` renders `y_{i}`).
pub proof fn law_matmul_contracts_the_shared_index(
    a: Seq<char>,
    b: Seq<char>,
    y: Seq<char>,
    m: MetadataView,
    o: RenderOptions,
    c: ContextView,
    range: TextRange,
)
    requires
        symbol_indices(m, a) is Some,
        symbol_indices(m, b) is Some,
        symbol_indices(m, a)->0.len() > 0,
        symbol_indices(m, b)->0.len() > 0,
        symbol_indices(m, a)->0.last() == symbol_indices(m, b)->0[0],
    ensures
        ({
            let ia = symbol_indices(m, a)->0;
            let ib = symbol_indices(m, b)->0;
            let free = ia.drop_last() + ib.skip(1);
            let r = render_spec(matmul_of(a, b), m, o, c, range);
            &&& r.indices == Some(free)
            &&& r.diagnostics.len() == 0
            &&& m.symbols.contains_key(y) && m.symbols[y].tensor is Some ==> render_statement_spec(
                StatementView::Assignment { target: ExprView::Name(y), value: matmul_of(a, b) },
                m,
                o,
                range,
            ).0 == tensor_latex(m.symbols[y].latex, free, m) + " = "@ + render_spec(
                matmul_of(a, b),
                m,
                o,
                crate::latex::plain_ctx(),
                range,
            ).latex
        }),
{
    let ia = symbol_indices(m, a)->0;
    let ib = symbol_indices(m, b)->0;
    let fc = crate::latex::force_ctx();
    let ra = render_spec(ExprView::Name(a), m, o, fc, range);
    let rb = render_spec(ExprView::Name(b), m, o, fc, range);
    assert(ra.indices == Some(ia));
    assert(rb.indices == Some(ib));
    assert(ra.latex.len() > 0) by {
        reveal_strlit("_{");
        assert(("_{"@).len() == 2);
    }
    let st0 = crate::latex::MatState { latex: seq![], diagnostics: seq![], free: None };
    let st1 = crate::latex::matmul_fold(ExprView::Name(a), m, o, range, st0);
    assert(st1 == crate::latex::matmul_step(st0, ra, range));
    assert(st1.free == Some(ia));
    assert(st1.latex.len() > 0);
    assert(st1.diagnostics.len() == 0);
    let st2 = crate::latex::matmul_fold(ExprView::Name(b), m, o, range, st1);
    assert(st2 == crate::latex::matmul_step(st1, rb, range));
    assert(st2.free == Some(ia.drop_last() + ib.skip(1)));
}

/// The infix operators `+` and `-`.
pub open spec fn additive(t: TokenView) -> bool {
    t is Plus || t is Minus
}

/// The infix operators `*`, `/` and `@`.
pub open spec fn multiplicative(t: TokenView) -> bool {
    t is Star || t is Slash || t is At
}

/// Two operators of one precedence level.
pub open spec fn same_level(op1: TokenView, op2: TokenView) -> bool {
    (additive(op1) && additive(op2)) || (multiplicative(op1) && multiplicative(op2))
}

/// The left binding power of an infix operator, or -1 for another token.
pub open spec fn left_power(t: TokenView) -> int {
    match infix_power(t) {
        Some((l, _)) => l as int,
        None => -1,
    }
}

/// The right binding power of an infix operator, or -1 for another token.
pub open spec fn right_power(t: TokenView) -> int {
    match infix_power(t) {
        Some((_, r)) => r as int,
        None => -1,
    }
}

/// Operators of one level are left-associative: the operand after the first binds to it
/// more tightly than to the second (its right binding power exceeds the second's left one),
/// and `*`, `/`, `@` bind more tightly than `+`, `-`.
pub proof fn law_binding_powers(op1: TokenView, op2: TokenView)
    ensures
        same_level(op1, op2) ==> infix_power(op1) is Some && infix_power(op2) is Some
            && right_power(op1) > left_power(op2) && left_power(op1) == left_power(op2),
        additive(op1) && multiplicative(op2) ==> left_power(op2) > right_power(op1),
{
}

/// `a op1 b op2 c` with two operators of one level parses as `(a op1 b) op2 c`: so
/// `a - b + c` is `(a - b) + c` and `a / b * c` is `(a / b) * c`.
pub proof fn law_same_level_is_left_associative(
    a: Seq<char>,
    b: Seq<char>,
    c: Seq<char>,
    op1: TokenView,
    op2: TokenView,
)
    requires
        same_level(op1, op2),
    ensures
        parse_expression(
            seq![
                TokenView::Name(a),
                op1,
                TokenView::Name(b),
                op2,
                TokenView::Name(c),
                TokenView::Eof,
            ],
        ) == Ok::<ExprView, Seq<char>>(
            infix_combine(op2, infix_combine(op1, ExprView::Name(a), ExprView::Name(b)), ExprView::Name(c)),
        ),
{
    let t = seq![
        TokenView::Name(a),
        op1,
        TokenView::Name(b),
        op2,
        TokenView::Name(c),
        TokenView::Eof,
    ];
    law_binding_powers(op1, op2);
    let r1 = right_power(op1) as u8;
    let r2 = right_power(op2) as u8;
    let ea = ExprView::Name(a);
    let eb = ExprView::Name(b);
    let ec = ExprView::Name(c);
    let ab = infix_combine(op1, ea, eb);
    let abc = infix_combine(op2, ab, ec);
    assert(crate::ir::peek(t, 1) == op1);
    assert(crate::ir::peek(t, 3) == op2);
    assert(crate::ir::peek(t, 5) == TokenView::Eof);
    assert(crate::ir::parse_prefix(t, 4) == Ok::<(ExprView, int), Seq<char>>((ec, 5)));
    assert(crate::ir::parse_postfix(t, ec, 5) == Ok::<(ExprView, int), Seq<char>>((ec, 5)));
    assert(crate::ir::parse_infix(t, ec, 5, r2) == Ok::<(ExprView, int), Seq<char>>((ec, 5)));
    assert(crate::ir::parse_bp(t, 4, r2) == Ok::<(ExprView, int), Seq<char>>((ec, 5)));
    assert(crate::ir::parse_infix(t, abc, 5, 0) == Ok::<(ExprView, int), Seq<char>>((abc, 5)));
    assert(crate::ir::parse_infix(t, ab, 3, 0) == Ok::<(ExprView, int), Seq<char>>((abc, 5)));
    assert(crate::ir::parse_prefix(t, 2) == Ok::<(ExprView, int), Seq<char>>((eb, 3)));
    assert(crate::ir::parse_postfix(t, eb, 3) == Ok::<(ExprView, int), Seq<char>>((eb, 3)));
    assert(crate::ir::parse_infix(t, eb, 3, r1) == Ok::<(ExprView, int), Seq<char>>((eb, 3)));
    assert(crate::ir::parse_bp(t, 2, r1) == Ok::<(ExprView, int), Seq<char>>((eb, 3)));
    assert(crate::ir::parse_infix(t, ea, 1, 0) == Ok::<(ExprView, int), Seq<char>>((abc, 5)));
    assert(crate::ir::parse_prefix(t, 0) == Ok::<(ExprView, int), Seq<char>>((ea, 1)));
    assert(crate::ir::parse_postfix(t, ea, 1) == Ok::<(ExprView, int), Seq<char>>((ea, 1)));
    assert(crate::ir::parse_bp(t, 0, 0) == Ok::<(ExprView, int), Seq<char>>((abc, 5)));
}

/// A `def` line takes the decorators pending above it and leaves none pending: its own
/// templates come from those decorators, and what later lines declare does not depend on
/// them (a decorator above one `def` gives a later `def` nothing).
pub proof fn law_def_consumes_pending_decorators(
    ls: Seq<Seq<char>>,
    j: int,
    decs: Seq<Seq<char>>,
    offset: int,
)
    requires
        0 <= j < ls.len(),
        def_name_spec(trim(ls[j])) is Some,
    ensures
        inline_step(ls[j], decs, offset).0 == Seq::<Seq<char>>::empty(),
        inline_from(ls, j, decs, offset).1 == decorator_functions(def_name_spec(trim(ls[j]))->0, decs)
            + inline_from(ls, j + 1, seq![], offset + crate::text::utf8_len(ls[j]) + 1).1,
{
    reveal(inline_step);
    let t = trim(ls[j]);
    reveal_strlit("def ");
    assert(starts_with(t, "def "@));
    assert(t[0] == ("def "@)[0]);
    assert(!starts_with(t, seq!['@']));
}

/// The token `enable=<item>` or `disable=<item>` (blanks around the item allowed).
pub open spec fn item_switch(tok: Seq<char>, e: bool, item: Seq<char>) -> bool {
    find(tok, seq!['=']) matches Some(k) && tok.take(k) == (if e {
        "enable"@
    } else {
        "disable"@
    }) && trim(tok.skip(k + 1)) == item
}

/// The token `enable=auto_name` or `disable=auto_name`.
pub open spec fn auto_name_switch(tok: Seq<char>, e: bool) -> bool {
    item_switch(tok, e, "auto_name"@)
}

/// `auto_name/subscript` and `auto_name/symbol` switch one naming each and leave the other
/// as it was.
pub proof fn law_auto_name_parts_switch_one_naming(
    init: RenderConfig,
    toks: Seq<Seq<char>>,
    tok: Seq<char>,
    e: bool,
)
    ensures
        item_switch(tok, e, "auto_name/subscript"@) ==> ({
            let before = config_tokens(init, toks).0;
            let c = config_tokens(init, toks.push(tok)).0;
            c.auto_name_subscript == Some(e) && c.auto_name_symbol == before.auto_name_symbol
        }),
        item_switch(tok, e, "auto_name/symbol"@) ==> ({
            let before = config_tokens(init, toks).0;
            let c = config_tokens(init, toks.push(tok)).0;
            c.auto_name_symbol == Some(e) && c.auto_name_subscript == before.auto_name_subscript
        }),
{
    reveal_strlit("enable");
    reveal_strlit("disable");
    reveal_strlit("auto_name");
    reveal_strlit("auto_name/subscript");
    reveal_strlit("auto_name/symbol");
    let all = toks.push(tok);
    assert(all.drop_last() =~= toks);
    assert(all.last() == tok);
    assert(("enable"@).len() != ("disable"@).len());
    assert(("auto_name/subscript"@).len() != ("auto_name"@).len());
    assert(("auto_name/symbol"@).len() != ("auto_name"@).len());
    assert(("auto_name/symbol"@).len() != ("auto_name/subscript"@).len());
}

/// `auto_name` switches both automatic namings: after a token `enable=auto_name` or
/// `disable=auto_name`, or a bare `auto_name` while `enable`/`disable` is pending, both the
/// subscript and the symbol naming are set to that value, whatever came before; so a whole
/// command that ends with such a token leaves both set.
pub proof fn law_auto_name_sets_both_namings(
    init: RenderConfig,
    toks: Seq<Seq<char>>,
    tok: Seq<char>,
    e: bool,
    command: Seq<char>,
)
    ensures
        auto_name_switch(tok, e) ==> ({
            let c = config_tokens(init, toks.push(tok)).0;
            c.auto_name_subscript == Some(e) && c.auto_name_symbol == Some(e)
        }),
        (find(tok, seq!['=']) is None && trim(tok) == "auto_name"@ && config_tokens(init, toks).1
            == Some(e)) ==> ({
            let c = config_tokens(init, toks.push(tok)).0;
            c.auto_name_subscript == Some(e) && c.auto_name_symbol == Some(e)
        }),
        (auto_name_switch(tok, e) && split_ws(replace_char(command, ',', seq![' '])) == toks.push(tok))
            ==> apply_config_spec(init, command).auto_name_subscript == Some(e) && apply_config_spec(
            init,
            command,
        ).auto_name_symbol == Some(e),
{
    reveal_strlit("enable");
    reveal_strlit("disable");
    reveal_strlit("auto_name");
    let all = toks.push(tok);
    assert(all.drop_last() =~= toks);
    assert(all.last() == tok);
    if auto_name_switch(tok, e) {
        assert(("enable"@).len() != ("disable"@).len());
    }
}

} // verus!
