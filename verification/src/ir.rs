//! Lowering of a math statement to an expression tree: `::query::` lookups expanded, the
//! trailing comment cut, a top-level `=` or `==` split off, and each side parsed by
//! precedence climbing over a small token language.
use vstd::prelude::*;
use crate::ast::{diags_view, Diagnostic, DiagnosticSeverity, DiagnosticView, TextRange};
use crate::metadata::{bytes_as_chars, expand_chars, expand_spec, push_bytes_as_chars};
use crate::text::{chars_of, push_all, push_str, string_of, subvec, trim, trim_chars};

verus! {

#[derive(Debug, Clone, Copy, PartialEq, Eq, Structural)]
pub enum UnaryOp {
    Plus,
    Minus,
}

#[derive(Debug, Clone, Copy, PartialEq, Eq, Structural)]
pub enum BinaryOp {
    Add,
    Sub,
    Mul,
    Div,
    Pow,
    MatMul,
}

#[derive(Debug, Clone, Copy, PartialEq, Eq, Structural)]
pub enum CompareOp {
    Eq,
}

/// An expression of the math language.
#[derive(Debug)]
pub enum Expr {
    Name(String),
    Literal(String),
    StringLiteral(String),
    Unary { op: UnaryOp, expr: Box<Expr> },
    Binary { op: BinaryOp, left: Box<Expr>, right: Box<Expr> },
    Compare { op: CompareOp, left: Box<Expr>, right: Box<Expr> },
    Call { func: Box<Expr>, args: Vec<Expr> },
    Attribute { value: Box<Expr>, attr: String },
    Subscript { value: Box<Expr>, indices: Vec<Expr> },
    Group(Box<Expr>),
    Unsupported(String),
}

/// The mathematical value of an [`Expr`]: the same tree with character sequences.
pub enum ExprView {
    Name(Seq<char>),
    Literal(Seq<char>),
    StringLiteral(Seq<char>),
    Unary { op: UnaryOp, expr: Box<ExprView> },
    Binary { op: BinaryOp, left: Box<ExprView>, right: Box<ExprView> },
    Compare { op: CompareOp, left: Box<ExprView>, right: Box<ExprView> },
    Call { func: Box<ExprView>, args: Seq<ExprView> },
    Attribute { value: Box<ExprView>, attr: Seq<char> },
    Subscript { value: Box<ExprView>, indices: Seq<ExprView> },
    Group(Box<ExprView>),
    Unsupported(Seq<char>),
}

pub open spec fn expr_view(e: Expr) -> ExprView
    decreases e,
{
    match e {
        Expr::Name(s) => ExprView::Name(s@),
        Expr::Literal(s) => ExprView::Literal(s@),
        Expr::StringLiteral(s) => ExprView::StringLiteral(s@),
        Expr::Unary { op, expr } => ExprView::Unary { op, expr: Box::new(expr_view(*expr)) },
        Expr::Binary { op, left, right } => ExprView::Binary {
            op,
            left: Box::new(expr_view(*left)),
            right: Box::new(expr_view(*right)),
        },
        Expr::Compare { op, left, right } => ExprView::Compare {
            op,
            left: Box::new(expr_view(*left)),
            right: Box::new(expr_view(*right)),
        },
        Expr::Call { func, args } => {
            proof {
                assert(decreases_to!(args => args@));
            }
            ExprView::Call { func: Box::new(expr_view(*func)), args: exprs_view(args@) }
        },
        Expr::Attribute { value, attr } => ExprView::Attribute {
            value: Box::new(expr_view(*value)),
            attr: attr@,
        },
        Expr::Subscript { value, indices } => {
            proof {
                assert(decreases_to!(indices => indices@));
            }
            ExprView::Subscript {
                value: Box::new(expr_view(*value)),
                indices: exprs_view(indices@),
            }
        },
        Expr::Group(inner) => ExprView::Group(Box::new(expr_view(*inner))),
        Expr::Unsupported(s) => ExprView::Unsupported(s@),
    }
}

pub open spec fn exprs_view(s: Seq<Expr>) -> Seq<ExprView>
    decreases s,
{
    if s.len() == 0 {
        Seq::empty()
    } else {
        proof {
            assert(decreases_to!(s => s[s.len() - 1]));
            assert(decreases_to!(s => s.subrange(0, s.len() - 1)));
        }
        exprs_view(s.subrange(0, s.len() - 1)).push(expr_view(s[s.len() - 1]))
    }
}

impl View for Expr {
    type V = ExprView;

    open spec fn view(&self) -> ExprView {
        expr_view(*self)
    }
}


pub proof fn lemma_exprs_view(s: Seq<Expr>)
    ensures
        exprs_view(s).len() == s.len(),
        forall|i: int| 0 <= i < s.len() ==> #[trigger] exprs_view(s)[i] == s[i]@,
    decreases s.len(),
{
    if s.len() > 0 {
        lemma_exprs_view(s.subrange(0, s.len() - 1));
        assert forall|i: int| 0 <= i < s.len() implies #[trigger] exprs_view(s)[i] == s[i]@ by {
            if i < s.len() - 1 {
                assert(s.subrange(0, s.len() - 1)[i] == s[i]);
            }
        }
    }
}

pub proof fn lemma_exprs_view_push(a: Seq<Expr>, e: Expr)
    ensures
        exprs_view(a.push(e)) == exprs_view(a).push(e@),
{
    assert(a.push(e).subrange(0, a.len() as int) == a);
}

/// A token of the math language.
pub enum Token {
    Name(Vec<char>),
    Number(Vec<char>),
    Str(Vec<char>),
    Plus,
    Minus,
    Star,
    Slash,
    Pow,
    At,
    LParen,
    RParen,
    LBracket,
    RBracket,
    Dot,
    Comma,
    Colon,
    EqEq,
    Eof,
}

pub enum TokenView {
    Name(Seq<char>),
    Number(Seq<char>),
    Str(Seq<char>),
    Plus,
    Minus,
    Star,
    Slash,
    Pow,
    At,
    LParen,
    RParen,
    LBracket,
    RBracket,
    Dot,
    Comma,
    Colon,
    EqEq,
    Eof,
}

impl View for Token {
    type V = TokenView;

    open spec fn view(&self) -> TokenView {
        match self {
            Token::Name(s) => TokenView::Name(s@),
            Token::Number(s) => TokenView::Number(s@),
            Token::Str(s) => TokenView::Str(s@),
            Token::Plus => TokenView::Plus,
            Token::Minus => TokenView::Minus,
            Token::Star => TokenView::Star,
            Token::Slash => TokenView::Slash,
            Token::Pow => TokenView::Pow,
            Token::At => TokenView::At,
            Token::LParen => TokenView::LParen,
            Token::RParen => TokenView::RParen,
            Token::LBracket => TokenView::LBracket,
            Token::RBracket => TokenView::RBracket,
            Token::Dot => TokenView::Dot,
            Token::Comma => TokenView::Comma,
            Token::Colon => TokenView::Colon,
            Token::EqEq => TokenView::EqEq,
            Token::Eof => TokenView::Eof,
        }
    }
}

pub open spec fn tokens_view(t: Seq<Token>) -> Seq<TokenView> {
    t.map_values(|x: Token| x@)
}

/// The first character of a name: `_` or an alphabetic character.
pub open spec fn ident_start(c: char) -> bool {
    c == '_' || crate::text::char_is_alphabetic(c)
}

/// A later character of a name: `_` or an alphanumeric character.
pub open spec fn ident_continue(c: char) -> bool {
    ident_start(c) || crate::text::char_is_alphanumeric(c)
}

fn ident_start_char(c: char) -> (r: bool)
    ensures
        r == ident_start(c),
{
    c == '_' || crate::text::is_alphabetic(c)
}

pub(crate) fn ident_continue_char(c: char) -> (r: bool)
    ensures
        r == ident_continue(c),
{
    ident_start_char(c) || crate::text::is_alphanumeric(c)
}

/// The index of the first character at or after `i` that is not ASCII whitespace.
pub open spec fn skip_ws(s: Seq<char>, i: int) -> int
    decreases s.len() - i,
{
    if 0 <= i < s.len() && crate::text::is_ascii_white_space(s[i]) {
        skip_ws(s, i + 1)
    } else {
        i
    }
}

/// The end of the run of digits and dots that starts at `i`.
pub open spec fn number_end(s: Seq<char>, i: int) -> int
    decreases s.len() - i,
{
    if 0 <= i < s.len() && (crate::text::is_ascii_digit(s[i]) || s[i] == '.') {
        number_end(s, i + 1)
    } else {
        i
    }
}

/// The end of the run of name characters that starts at `i`.
pub open spec fn name_end(s: Seq<char>, i: int) -> int
    decreases s.len() - i,
{
    if 0 <= i < s.len() && ident_continue(s[i]) {
        name_end(s, i + 1)
    } else {
        i
    }
}

/// A string literal's value from `i` on, up to the closing quote `q`, and the index after
/// it. Each character is taken byte by byte (see `bytes_as_chars`); a backslash takes the
/// next character as it is.
pub open spec fn lex_string(s: Seq<char>, q: char, i: int, acc: Seq<char>) -> Result<
    (TokenView, int),
    Seq<char>,
>
    decreases s.len() - i,
{
    if i < 0 || i >= s.len() {
        Err("unterminated string literal"@)
    } else if s[i] == q {
        Ok((TokenView::Str(acc), i + 1))
    } else if s[i] == '\\' && i + 1 < s.len() {
        lex_string(s, q, i + 2, acc + bytes_as_chars(s[i + 1]))
    } else {
        lex_string(s, q, i + 1, acc + bytes_as_chars(s[i]))
    }
}

/// The token that starts at or after `i` (after ASCII whitespace) and the index after it.
pub open spec fn lex_token(s: Seq<char>, i: int) -> Result<(TokenView, int), Seq<char>> {
    let k = skip_ws(s, i);
    if k < 0 || k >= s.len() {
        Ok((TokenView::Eof, k))
    } else {
        let c = s[k];
        let two = k + 1 < s.len();
        if c == '+' {
            Ok((TokenView::Plus, k + 1))
        } else if c == '-' {
            Ok((TokenView::Minus, k + 1))
        } else if c == '*' && two && s[k + 1] == '*' {
            Ok((TokenView::Pow, k + 2))
        } else if c == '*' {
            Ok((TokenView::Star, k + 1))
        } else if c == '/' {
            Ok((TokenView::Slash, k + 1))
        } else if c == '@' {
            Ok((TokenView::At, k + 1))
        } else if c == '(' {
            Ok((TokenView::LParen, k + 1))
        } else if c == ')' {
            Ok((TokenView::RParen, k + 1))
        } else if c == '[' {
            Ok((TokenView::LBracket, k + 1))
        } else if c == ']' {
            Ok((TokenView::RBracket, k + 1))
        } else if c == '.' {
            Ok((TokenView::Dot, k + 1))
        } else if c == ',' {
            Ok((TokenView::Comma, k + 1))
        } else if c == ':' {
            Ok((TokenView::Colon, k + 1))
        } else if c == '=' && two && s[k + 1] == '=' {
            Ok((TokenView::EqEq, k + 2))
        } else if c == '\'' || c == '"' {
            lex_string(s, c, k + 1, seq![])
        } else if crate::text::is_ascii_digit(c) {
            Ok((TokenView::Number(s.subrange(k, number_end(s, k + 1))), number_end(s, k + 1)))
        } else if ident_start(c) {
            Ok((TokenView::Name(s.subrange(k, name_end(s, k + 1))), name_end(s, k + 1)))
        } else {
            Err("unsupported token near "@ + crate::text::str_debug(s.skip(k)))
        }
    }
}

/// All tokens of `s` from `i` on, ending with `Eof`, or the message of the first character
/// that the lexer cannot read.
pub open spec fn lex_all(s: Seq<char>, i: int) -> Result<Seq<TokenView>, Seq<char>>
    decreases s.len() - i,
{
    match lex_token(s, i) {
        Err(m) => Err(m),
        Ok((t, j)) => if t is Eof {
            Ok(seq![TokenView::Eof])
        } else if i < j <= s.len() {
            prepend_tokens(seq![t], lex_all(s, j))
        } else {
            Ok(seq![TokenView::Eof])
        },
    }
}

/// `p` in front of the tokens of `r`; an error stays as it is.
pub open spec fn prepend_tokens(p: Seq<TokenView>, r: Result<Seq<TokenView>, Seq<char>>) -> Result<Seq<TokenView>, Seq<char>> {
    match r {
        Ok(t) => Ok(p + t),
        Err(m) => Err(m),
    }
}

/// A token list that the parser accepts: it ends with `Eof`, and only there.
pub open spec fn tokens_wf(t: Seq<TokenView>) -> bool {
    &&& t.len() > 0
    &&& t.last() is Eof
    &&& forall|k: int| 0 <= k < t.len() - 1 ==> !(#[trigger] t[k] is Eof)
}

proof fn lemma_skip_ws(s: Seq<char>, i: int)
    requires
        0 <= i <= s.len(),
    ensures
        i <= skip_ws(s, i) <= s.len(),
    decreases s.len() - i,
{
    if 0 <= i < s.len() && crate::text::is_ascii_white_space(s[i]) {
        lemma_skip_ws(s, i + 1);
    }
}

proof fn lemma_number_end(s: Seq<char>, i: int)
    requires
        0 <= i <= s.len(),
    ensures
        i <= number_end(s, i) <= s.len(),
    decreases s.len() - i,
{
    if 0 <= i < s.len() && (crate::text::is_ascii_digit(s[i]) || s[i] == '.') {
        lemma_number_end(s, i + 1);
    }
}

proof fn lemma_name_end(s: Seq<char>, i: int)
    requires
        0 <= i <= s.len(),
    ensures
        i <= name_end(s, i) <= s.len(),
    decreases s.len() - i,
{
    if 0 <= i < s.len() && ident_continue(s[i]) {
        lemma_name_end(s, i + 1);
    }
}

proof fn lemma_lex_string(s: Seq<char>, q: char, i: int, acc: Seq<char>)
    requires
        0 <= i,
    ensures
        lex_string(s, q, i, acc) matches Ok((t, j)) ==> i < j <= s.len() && t is Str,
    decreases s.len() - i,
{
    if i < 0 || i >= s.len() {
    } else if s[i] == q {
    } else if s[i] == '\\' && i + 1 < s.len() {
        lemma_lex_string(s, q, i + 2, acc + bytes_as_chars(s[i + 1]));
    } else {
        lemma_lex_string(s, q, i + 1, acc + bytes_as_chars(s[i]));
    }
}

proof fn lemma_lex_token(s: Seq<char>, i: int)
    requires
        0 <= i <= s.len(),
    ensures
        lex_token(s, i) matches Ok((t, j)) ==> (t is Eof || i < j <= s.len()),
{
    lemma_skip_ws(s, i);
    let k = skip_ws(s, i);
    if k < s.len() {
        lemma_number_end(s, k + 1);
        lemma_name_end(s, k + 1);
        lemma_lex_string(s, s[k], k + 1, seq![]);
    }
}

proof fn lemma_lex_all_wf(s: Seq<char>, i: int)
    requires
        0 <= i <= s.len(),
    ensures
        lex_all(s, i) matches Ok(t) ==> tokens_wf(t),
    decreases s.len() - i,
{
    lemma_lex_token(s, i);
    match lex_token(s, i) {
        Err(m) => {},
        Ok((t, j)) => {
            if t is Eof {
            } else if i < j <= s.len() {
                lemma_lex_all_wf(s, j);
                if let Ok(r) = lex_all(s, j) {
                    let all = seq![t] + r;
                    assert(all.last() == r.last());
                    assert forall|k: int| 0 <= k < all.len() - 1 implies !(#[trigger] all[k] is Eof) by {
                        if k > 0 {
                            assert(all[k] == r[k - 1]);
                        }
                    }
                }
            }
        },
    }
}

fn skip_ws_exec(s: &Vec<char>, i: usize) -> (k: usize)
    requires
        i <= s@.len(),
    ensures
        k == skip_ws(s@, i as int),
        i <= k <= s@.len(),
{
    let mut k = i;
    while k < s.len() && crate::text::is_ascii_white_space_char(s[k])
        invariant
            i <= k <= s@.len(),
            skip_ws(s@, i as int) == skip_ws(s@, k as int),
        decreases s@.len() - k,
    {
        k = k + 1;
    }
    k
}

fn number_end_exec(s: &Vec<char>, i: usize) -> (k: usize)
    requires
        i <= s@.len(),
    ensures
        k == number_end(s@, i as int),
        i <= k <= s@.len(),
{
    let mut k = i;
    while k < s.len() && (crate::text::is_ascii_digit_char(s[k]) || s[k] == '.')
        invariant
            i <= k <= s@.len(),
            number_end(s@, i as int) == number_end(s@, k as int),
        decreases s@.len() - k,
    {
        k = k + 1;
    }
    k
}

fn name_end_exec(s: &Vec<char>, i: usize) -> (k: usize)
    requires
        i <= s@.len(),
    ensures
        k == name_end(s@, i as int),
        i <= k <= s@.len(),
{
    let mut k = i;
    while k < s.len() && ident_continue_char(s[k])
        invariant
            i <= k <= s@.len(),
            name_end(s@, i as int) == name_end(s@, k as int),
        decreases s@.len() - k,
    {
        k = k + 1;
    }
    k
}

fn lex_string_exec(s: &Vec<char>, q: char, i: usize) -> (r: Result<(Token, usize), Vec<char>>)
    requires
        i <= s@.len(),
    ensures
        match r {
            Ok((t, j)) => lex_string(s@, q, i as int, seq![]) == Ok::<(TokenView, int), Seq<char>>((t@, j as int)),
            Err(m) => lex_string(s@, q, i as int, seq![]) == Err::<(TokenView, int), Seq<char>>(m@),
        },
{
    let mut acc: Vec<char> = Vec::new();
    let mut k = i;
    while k < s.len()
        invariant
            i <= k <= s@.len(),
            lex_string(s@, q, i as int, seq![]) == lex_string(s@, q, k as int, acc@),
        decreases s@.len() - k,
    {
        if s[k] == q {
            return Ok((Token::Str(acc), k + 1));
        }
        if s[k] == '\\' && k + 1 < s.len() {
            push_bytes_as_chars(&mut acc, s[k + 1]);
            k = k + 2;
        } else {
            push_bytes_as_chars(&mut acc, s[k]);
            k = k + 1;
        }
    }
    let mut m: Vec<char> = Vec::new();
    push_str(&mut m, "unterminated string literal");
    Err(m)
}

fn lex_token_exec(s: &Vec<char>, i: usize) -> (r: Result<(Token, usize), Vec<char>>)
    requires
        i <= s@.len(),
    ensures
        match r {
            Ok((t, j)) => lex_token(s@, i as int) == Ok::<(TokenView, int), Seq<char>>((t@, j as int)),
            Err(m) => lex_token(s@, i as int) == Err::<(TokenView, int), Seq<char>>(m@),
        },
{
    let k = skip_ws_exec(s, i);
    if k >= s.len() {
        return Ok((Token::Eof, k));
    }
    let c = s[k];
    let two = k + 1 < s.len();
    if c == '+' {
        Ok((Token::Plus, k + 1))
    } else if c == '-' {
        Ok((Token::Minus, k + 1))
    } else if c == '*' && two && s[k + 1] == '*' {
        Ok((Token::Pow, k + 2))
    } else if c == '*' {
        Ok((Token::Star, k + 1))
    } else if c == '/' {
        Ok((Token::Slash, k + 1))
    } else if c == '@' {
        Ok((Token::At, k + 1))
    } else if c == '(' {
        Ok((Token::LParen, k + 1))
    } else if c == ')' {
        Ok((Token::RParen, k + 1))
    } else if c == '[' {
        Ok((Token::LBracket, k + 1))
    } else if c == ']' {
        Ok((Token::RBracket, k + 1))
    } else if c == '.' {
        Ok((Token::Dot, k + 1))
    } else if c == ',' {
        Ok((Token::Comma, k + 1))
    } else if c == ':' {
        Ok((Token::Colon, k + 1))
    } else if c == '=' && two && s[k + 1] == '=' {
        Ok((Token::EqEq, k + 2))
    } else if c == '\'' || c == '"' {
        lex_string_exec(s, c, k + 1)
    } else if crate::text::is_ascii_digit_char(c) {
        let e = number_end_exec(s, k + 1);
        Ok((Token::Number(subvec(s, k, e)), e))
    } else if ident_start_char(c) {
        let e = name_end_exec(s, k + 1);
        Ok((Token::Name(subvec(s, k, e)), e))
    } else {
        let mut m: Vec<char> = Vec::new();
        push_str(&mut m, "unsupported token near ");
        let rest = subvec(s, k, s.len());
        let d = crate::text::debug_chars(&rest);
        push_all(&mut m, &d);
        assert(rest@ == s@.skip(k as int));
        Err(m)
    }
}

/// The tokens of `s`, or the message of the first character that the lexer cannot read.
pub fn tokenize(s: &Vec<char>) -> (r: Result<Vec<Token>, Vec<char>>)
    ensures
        match r {
            Ok(toks) => lex_all(s@, 0) == Ok::<Seq<TokenView>, Seq<char>>(tokens_view(toks@))
                && tokens_wf(tokens_view(toks@)),
            Err(m) => lex_all(s@, 0) == Err::<Seq<TokenView>, Seq<char>>(m@),
        },
{
    let mut toks: Vec<Token> = Vec::new();
    let mut i: usize = 0;
    proof {
        lemma_lex_all_wf(s@, 0);
    }
    loop
        invariant
            i <= s@.len(),
            lex_all(s@, 0) == prepend_tokens(tokens_view(toks@), lex_all(s@, i as int)),
            lex_all(s@, 0) matches Ok(t) ==> tokens_wf(t),
        decreases s@.len() - i,
    {
        let ghost prev = toks@;
        proof {
            lemma_lex_token(s@, i as int);
        }
        match lex_token_exec(s, i) {
            Err(m) => {
                return Err(m);
            },
            Ok((t, j)) => {
                if let Token::Eof = t {
                    toks.push(Token::Eof);
                    assert(tokens_view(toks@) =~= tokens_view(prev) + seq![TokenView::Eof]);
                    return Ok(toks);
                }
                let ghost tv = t@;
                toks.push(t);
                assert(tokens_view(toks@) =~= tokens_view(prev).push(tv));
                assert(lex_all(s@, i as int) == prepend_tokens(seq![tv], lex_all(s@, j as int)));
                assert(prepend_tokens(tokens_view(prev), lex_all(s@, i as int))
                    =~= prepend_tokens(tokens_view(toks@), lex_all(s@, j as int))) by {
                    match lex_all(s@, j as int) {
                        Ok(rest) => {
                            assert(tokens_view(prev) + (seq![tv] + rest) =~= tokens_view(toks@) + rest);
                        },
                        Err(_) => {},
                    }
                }
                i = j;
            },
        }
    }
}


/// A parse result: the expression and the index of the first token after it, or a message.
pub type Parsed = Result<(ExprView, int), Seq<char>>;

/// The token at `i`, or `Eof` past the end.
pub open spec fn peek(t: Seq<TokenView>, i: int) -> TokenView {
    if 0 <= i < t.len() {
        t[i]
    } else {
        TokenView::Eof
    }
}

/// The `Debug` text of a token, as the derived `Debug` of a token whose payload is a string
/// writes it.
pub open spec fn token_debug(t: TokenView) -> Seq<char> {
    match t {
        TokenView::Name(s) => "Name("@ + crate::text::str_debug(s) + ")"@,
        TokenView::Number(s) => "Number("@ + crate::text::str_debug(s) + ")"@,
        TokenView::Str(s) => "Str("@ + crate::text::str_debug(s) + ")"@,
        TokenView::Plus => "Plus"@,
        TokenView::Minus => "Minus"@,
        TokenView::Star => "Star"@,
        TokenView::Slash => "Slash"@,
        TokenView::Pow => "Pow"@,
        TokenView::At => "At"@,
        TokenView::LParen => "LParen"@,
        TokenView::RParen => "RParen"@,
        TokenView::LBracket => "LBracket"@,
        TokenView::RBracket => "RBracket"@,
        TokenView::Dot => "Dot"@,
        TokenView::Comma => "Comma"@,
        TokenView::Colon => "Colon"@,
        TokenView::EqEq => "EqEq"@,
        TokenView::Eof => "Eof"@,
    }
}

pub open spec fn expect_msg(expected: TokenView, actual: TokenView) -> Seq<char> {
    "expected "@ + token_debug(expected) + ", found "@ + token_debug(actual)
}

/// The binding powers (left, right) of an infix operator token: `==` 1/2, `+ -` 3/4,
/// `* / @` 5/6, `**` 8/7 (right-associative).
pub open spec fn infix_power(t: TokenView) -> Option<(u8, u8)> {
    match t {
        TokenView::EqEq => Some((1u8, 2u8)),
        TokenView::Plus => Some((3u8, 4u8)),
        TokenView::Minus => Some((3u8, 4u8)),
        TokenView::Star => Some((5u8, 6u8)),
        TokenView::Slash => Some((5u8, 6u8)),
        TokenView::At => Some((5u8, 6u8)),
        TokenView::Pow => Some((8u8, 7u8)),
        _ => None,
    }
}

/// The expression that an infix operator token builds from its two operands.
pub open spec fn infix_combine(t: TokenView, l: ExprView, r: ExprView) -> ExprView {
    let (left, right) = (Box::new(l), Box::new(r));
    match t {
        TokenView::EqEq => ExprView::Compare { op: CompareOp::Eq, left, right },
        TokenView::Plus => ExprView::Binary { op: BinaryOp::Add, left, right },
        TokenView::Minus => ExprView::Binary { op: BinaryOp::Sub, left, right },
        TokenView::Star => ExprView::Binary { op: BinaryOp::Mul, left, right },
        TokenView::Slash => ExprView::Binary { op: BinaryOp::Div, left, right },
        TokenView::At => ExprView::Binary { op: BinaryOp::MatMul, left, right },
        _ => ExprView::Binary { op: BinaryOp::Pow, left, right },
    }
}

/// The text of a slice bound: a literal's or a name's text, else nothing.
pub open spec fn bound_text(e: ExprView) -> Seq<char> {
    match e {
        ExprView::Literal(v) => v,
        ExprView::Name(v) => v,
        _ => seq![],
    }
}

/// A prefix expression at `i`: a name, number or string, a signed operand, or a
/// parenthesized group.
pub open spec fn parse_prefix(t: Seq<TokenView>, i: int) -> Parsed
    decreases t.len() - i, 0int,
{
    if i < 0 || i >= t.len() {
        Err(seq![])
    } else {
        match t[i] {
            TokenView::Name(n) => Ok((ExprView::Name(n), i + 1)),
            TokenView::Number(n) => Ok((ExprView::Literal(n), i + 1)),
            TokenView::Str(v) => Ok((ExprView::StringLiteral(v), i + 1)),
            TokenView::Plus => match parse_bp(t, i + 1, 5) {
                Ok((e, j)) => Ok((ExprView::Unary { op: UnaryOp::Plus, expr: Box::new(e) }, j)),
                Err(m) => Err(m),
            },
            TokenView::Minus => match parse_bp(t, i + 1, 5) {
                Ok((e, j)) => Ok((ExprView::Unary { op: UnaryOp::Minus, expr: Box::new(e) }, j)),
                Err(m) => Err(m),
            },
            TokenView::LParen => match parse_bp(t, i + 1, 0) {
                Ok((e, j)) => if peek(t, j) is RParen {
                    Ok((ExprView::Group(Box::new(e)), j + 1))
                } else {
                    Err(expect_msg(TokenView::RParen, peek(t, j)))
                },
                Err(m) => Err(m),
            },
            other => Err("expected expression, found "@ + token_debug(other)),
        }
    }
}

/// An expression at `i` whose infix operators bind at least as tightly as `min_bp`.
pub open spec fn parse_bp(t: Seq<TokenView>, i: int, min_bp: u8) -> Parsed
    decreases t.len() - i, 1int,
{
    if i < 0 || i >= t.len() {
        Err(seq![])
    } else {
        match parse_prefix(t, i) {
            Err(m) => Err(m),
            Ok((lhs, j)) => if i < j <= t.len() {
                match parse_postfix(t, lhs, j) {
                    Err(m) => Err(m),
                    Ok((lhs2, k)) => if j <= k <= t.len() {
                        parse_infix(t, lhs2, k, min_bp)
                    } else {
                        Err(seq![])
                    },
                }
            } else {
                Err(seq![])
            },
        }
    }
}

/// Calls, subscripts and attribute accesses that follow `lhs` at `i`.
pub open spec fn parse_postfix(t: Seq<TokenView>, lhs: ExprView, i: int) -> Parsed
    decreases t.len() - i, 4int,
{
    if i < 0 || i > t.len() {
        Err(seq![])
    } else {
        match peek(t, i) {
            TokenView::LParen => match parse_call(t, lhs, i) {
                Err(m) => Err(m),
                Ok((e, j)) => if i < j <= t.len() {
                    parse_postfix(t, e, j)
                } else {
                    Err(seq![])
                },
            },
            TokenView::LBracket => match parse_subscript(t, lhs, i) {
                Err(m) => Err(m),
                Ok((e, j)) => if i < j <= t.len() {
                    parse_postfix(t, e, j)
                } else {
                    Err(seq![])
                },
            },
            TokenView::Dot => match peek(t, i + 1) {
                TokenView::Name(a) => if i + 2 <= t.len() {
                    parse_postfix(t, ExprView::Attribute { value: Box::new(lhs), attr: a }, i + 2)
                } else {
                    Err(seq![])
                },
                _ => Err("expected attribute name after dot"@),
            },
            _ => Ok((lhs, i)),
        }
    }
}

/// The infix operators at `i` and their right operands, folded onto `lhs`.
pub open spec fn parse_infix(t: Seq<TokenView>, lhs: ExprView, i: int, min_bp: u8) -> Parsed
    decreases t.len() - i, 0int,
{
    if i < 0 || i > t.len() {
        Err(seq![])
    } else {
        match infix_power(peek(t, i)) {
            None => Ok((lhs, i)),
            Some((lbp, rbp)) => if lbp < min_bp {
                Ok((lhs, i))
            } else {
                match parse_bp(t, i + 1, rbp) {
                    Err(m) => Err(m),
                    Ok((rhs, j)) => if i < j <= t.len() {
                        parse_infix(t, infix_combine(peek(t, i), lhs, rhs), j, min_bp)
                    } else {
                        Err(seq![])
                    },
                }
            },
        }
    }
}

/// A call's argument list at `i` (its `(`), applied to `func`.
pub open spec fn parse_call(t: Seq<TokenView>, func: ExprView, i: int) -> Parsed
    decreases t.len() - i, 3int,
{
    if i < 0 || i >= t.len() {
        Err(seq![])
    } else if !(t[i] is LParen) {
        Err(expect_msg(TokenView::LParen, t[i]))
    } else if peek(t, i + 1) is RParen {
        Ok((ExprView::Call { func: Box::new(func), args: seq![] }, i + 2))
    } else {
        parse_args(t, func, seq![], i + 1)
    }
}

/// The arguments from `i` on, after those in `args`, up to the closing `)`.
pub open spec fn parse_args(t: Seq<TokenView>, func: ExprView, args: Seq<ExprView>, i: int) -> Parsed
    decreases t.len() - i, 2int,
{
    if i < 0 || i >= t.len() {
        Err(seq![])
    } else {
        match parse_bp(t, i, 0) {
            Err(m) => Err(m),
            Ok((e, j)) => if i < j <= t.len() {
                let args2 = args.push(e);
                match peek(t, j) {
                    TokenView::Comma => if peek(t, j + 1) is RParen {
                        Ok((ExprView::Call { func: Box::new(func), args: args2 }, j + 2))
                    } else {
                        parse_args(t, func, args2, j + 1)
                    },
                    TokenView::RParen => Ok(
                        (ExprView::Call { func: Box::new(func), args: args2 }, j + 1),
                    ),
                    other => Err("expected comma or right paren, found "@ + token_debug(other)),
                }
            } else {
                Err(seq![])
            },
        }
    }
}

/// A subscript's index list at `i` (its `[`), applied to `value`.
pub open spec fn parse_subscript(t: Seq<TokenView>, value: ExprView, i: int) -> Parsed
    decreases t.len() - i, 3int,
{
    if i < 0 || i >= t.len() {
        Err(seq![])
    } else if !(t[i] is LBracket) {
        Err(expect_msg(TokenView::LBracket, t[i]))
    } else if peek(t, i + 1) is RBracket {
        Ok((ExprView::Subscript { value: Box::new(value), indices: seq![] }, i + 2))
    } else {
        parse_indices(t, value, seq![], i + 1)
    }
}

/// The indices from `i` on, after those in `idx`; `a:b` becomes the literal `a:b`.
pub open spec fn parse_indices(t: Seq<TokenView>, value: ExprView, idx: Seq<ExprView>, i: int) -> Parsed
    decreases t.len() - i, 2int,
{
    if i < 0 || i >= t.len() {
        Err(seq![])
    } else {
        match parse_bp(t, i, 0) {
            Err(m) => Err(m),
            Ok((e, j)) => if i < j <= t.len() {
                if peek(t, j) is Colon {
                    let left = bound_text(e);
                    if !(peek(t, j + 1) is Comma || peek(t, j + 1) is RBracket) {
                        match parse_bp(t, j + 1, 0) {
                            Err(m) => Err(m),
                            Ok((e2, k)) => if j + 1 < k <= t.len() {
                                after_index(
                                    t,
                                    value,
                                    idx.push(ExprView::Literal(left + seq![':'] + bound_text(e2))),
                                    k,
                                )
                            } else {
                                Err(seq![])
                            },
                        }
                    } else {
                        after_index(t, value, idx.push(ExprView::Literal(left + seq![':'])), j + 1)
                    }
                } else {
                    after_index(t, value, idx.push(e), j)
                }
            } else {
                Err(seq![])
            },
        }
    }
}

/// What follows an index at `j`: `,` and more indices, or the closing `]`.
pub open spec fn after_index(t: Seq<TokenView>, value: ExprView, idx: Seq<ExprView>, j: int) -> Parsed
    decreases t.len() - j, 0int,
{
    if j < 0 || j > t.len() {
        Err(seq![])
    } else {
        match peek(t, j) {
            TokenView::Comma => if peek(t, j + 1) is RBracket {
                Ok((ExprView::Subscript { value: Box::new(value), indices: idx }, j + 2))
            } else {
                parse_indices(t, value, idx, j + 1)
            },
            TokenView::RBracket => Ok(
                (ExprView::Subscript { value: Box::new(value), indices: idx }, j + 1),
            ),
            other => Err("expected comma or right bracket, found "@ + token_debug(other)),
        }
    }
}

/// A whole expression: it must be followed by the end, `)`, `]` or `,`.
pub open spec fn parse_expression(t: Seq<TokenView>) -> Result<ExprView, Seq<char>> {
    match parse_bp(t, 0, 0) {
        Err(m) => Err(m),
        Ok((e, j)) => {
            let p = peek(t, j);
            if p is Eof || p is RParen || p is RBracket || p is Comma {
                Ok(e)
            } else {
                Err("unexpected token "@ + token_debug(p))
            }
        },
    }
}


/// How an executable parse result stands to a spec result: the same expression and index,
/// the index after `i` (or at it, where `strict` is false) and before the final `Eof`.
pub open spec fn agrees(r: Result<(Expr, usize), Vec<char>>, p: Parsed, i: int, n: int, strict: bool) -> bool {
    match r {
        Ok((e, j)) => p == Ok::<(ExprView, int), Seq<char>>((e@, j as int)) && (if strict {
            i < j
        } else {
            i <= j
        }) && j < n,
        Err(m) => p == Err::<(ExprView, int), Seq<char>>(m@),
    }
}

proof fn lemma_tokens_view(toks: Seq<Token>)
    ensures
        tokens_view(toks).len() == toks.len(),
        forall|k: int| 0 <= k < toks.len() ==> #[trigger] tokens_view(toks)[k] == toks[k]@,
{
}

proof fn lemma_inner(t: Seq<TokenView>, i: int)
    requires
        tokens_wf(t),
        0 <= i < t.len(),
        !(t[i] is Eof),
    ensures
        i < t.len() - 1,
{
}

fn push_debug(r: &mut Vec<char>, head: &str, s: &Vec<char>)
    ensures
        final(r)@ == old(r)@ + head@ + crate::text::str_debug(s@) + ")"@,
{
    push_str(r, head);
    let d = crate::text::debug_chars(s);
    push_all(r, &d);
    push_str(r, ")");
}

fn token_debug_exec(t: &Token) -> (r: Vec<char>)
    ensures
        r@ == token_debug(t@),
{
    let mut r: Vec<char> = Vec::new();
    match t {
        Token::Name(s) => push_debug(&mut r, "Name(", s),
        Token::Number(s) => push_debug(&mut r, "Number(", s),
        Token::Str(s) => push_debug(&mut r, "Str(", s),
        Token::Plus => push_str(&mut r, "Plus"),
        Token::Minus => push_str(&mut r, "Minus"),
        Token::Star => push_str(&mut r, "Star"),
        Token::Slash => push_str(&mut r, "Slash"),
        Token::Pow => push_str(&mut r, "Pow"),
        Token::At => push_str(&mut r, "At"),
        Token::LParen => push_str(&mut r, "LParen"),
        Token::RParen => push_str(&mut r, "RParen"),
        Token::LBracket => push_str(&mut r, "LBracket"),
        Token::RBracket => push_str(&mut r, "RBracket"),
        Token::Dot => push_str(&mut r, "Dot"),
        Token::Comma => push_str(&mut r, "Comma"),
        Token::Colon => push_str(&mut r, "Colon"),
        Token::EqEq => push_str(&mut r, "EqEq"),
        Token::Eof => push_str(&mut r, "Eof"),
    }
    r
}

fn message_with_token(head: &str, t: &Token) -> (r: Vec<char>)
    ensures
        r@ == head@ + token_debug(t@),
{
    let mut r: Vec<char> = Vec::new();
    push_str(&mut r, head);
    let d = token_debug_exec(t);
    push_all(&mut r, &d);
    r
}

fn expect_message(expected: &Token, actual: &Token) -> (r: Vec<char>)
    ensures
        r@ == expect_msg(expected@, actual@),
{
    let mut r = message_with_token("expected ", expected);
    push_str(&mut r, ", found ");
    let d = token_debug_exec(actual);
    push_all(&mut r, &d);
    r
}

fn message(text: &str) -> (r: Vec<char>)
    ensures
        r@ == text@,
{
    let mut r: Vec<char> = Vec::new();
    push_str(&mut r, text);
    r
}

fn prefix_exec(toks: &Vec<Token>, i: usize) -> (r: Result<(Expr, usize), Vec<char>>)
    requires
        tokens_wf(tokens_view(toks@)),
        i < toks@.len(),
    ensures
        agrees(r, parse_prefix(tokens_view(toks@), i as int), i as int, toks@.len() as int, true),
    decreases toks@.len() - i, 0int,
{
    let ghost t = tokens_view(toks@);
    let _len = toks.len();
    proof {
        lemma_tokens_view(toks@);
    }
    proof {
        assert(t[i as int] == toks@[i as int]@);
        if !(t[i as int] is Eof) {
            lemma_inner(t, i as int);
        }
    }
    match &toks[i] {
        Token::Name(n) => Ok((Expr::Name(string_of(n)), i + 1)),
        Token::Number(n) => Ok((Expr::Literal(string_of(n)), i + 1)),
        Token::Str(v) => Ok((Expr::StringLiteral(string_of(v)), i + 1)),
        Token::Plus => match bp_exec(toks, i + 1, 5) {
            Ok((e, j)) => Ok((Expr::Unary { op: UnaryOp::Plus, expr: Box::new(e) }, j)),
            Err(m) => Err(m),
        },
        Token::Minus => match bp_exec(toks, i + 1, 5) {
            Ok((e, j)) => Ok((Expr::Unary { op: UnaryOp::Minus, expr: Box::new(e) }, j)),
            Err(m) => Err(m),
        },
        Token::LParen => match bp_exec(toks, i + 1, 0) {
            Ok((e, j)) => {
                proof {
                    assert(t[j as int] == toks@[j as int]@);
                }
                match &toks[j] {
                    Token::RParen => {
                        proof {
                            lemma_inner(t, j as int);
                        }
                        Ok((Expr::Group(Box::new(e)), j + 1))
                    },
                    other => Err(expect_message(&Token::RParen, other)),
                }
            },
            Err(m) => Err(m),
        },
        other => Err(message_with_token("expected expression, found ", other)),
    }
}

fn bp_exec(toks: &Vec<Token>, i: usize, min_bp: u8) -> (r: Result<(Expr, usize), Vec<char>>)
    requires
        tokens_wf(tokens_view(toks@)),
        i < toks@.len(),
    ensures
        agrees(r, parse_bp(tokens_view(toks@), i as int, min_bp), i as int, toks@.len() as int, true),
    decreases toks@.len() - i, 1int,
{
    match prefix_exec(toks, i) {
        Err(m) => Err(m),
        Ok((lhs, j)) => match postfix_exec(toks, lhs, j) {
            Err(m) => Err(m),
            Ok((lhs2, k)) => infix_exec(toks, lhs2, k, min_bp),
        },
    }
}

fn postfix_exec(toks: &Vec<Token>, lhs: Expr, i: usize) -> (r: Result<(Expr, usize), Vec<char>>)
    requires
        tokens_wf(tokens_view(toks@)),
        i < toks@.len(),
    ensures
        agrees(r, parse_postfix(tokens_view(toks@), lhs@, i as int), i as int, toks@.len() as int, false),
    decreases toks@.len() - i, 4int,
{
    let ghost t = tokens_view(toks@);
    let _len = toks.len();
    proof {
        lemma_tokens_view(toks@);
    }
    proof {
        assert(t[i as int] == toks@[i as int]@);
        if !(t[i as int] is Eof) {
            lemma_inner(t, i as int);
        }
    }
    match &toks[i] {
        Token::LParen => match call_exec(toks, lhs, i) {
            Err(m) => Err(m),
            Ok((e, j)) => postfix_exec(toks, e, j),
        },
        Token::LBracket => match subscript_exec(toks, lhs, i) {
            Err(m) => Err(m),
            Ok((e, j)) => postfix_exec(toks, e, j),
        },
        Token::Dot => {
            proof {
                assert(t[i + 1] == toks@[i + 1]@);
            }
            match &toks[i + 1] {
                Token::Name(a) => {
                    proof {
                        lemma_inner(t, i + 1);
                    }
                    postfix_exec(toks, Expr::Attribute { value: Box::new(lhs), attr: string_of(a) }, i + 2)
                },
                _ => Err(message("expected attribute name after dot")),
            }
        },
        _ => Ok((lhs, i)),
    }
}

fn infix_power_exec(t: &Token) -> (r: Option<(u8, u8)>)
    ensures
        r == infix_power(t@),
{
    match t {
        Token::EqEq => Some((1, 2)),
        Token::Plus => Some((3, 4)),
        Token::Minus => Some((3, 4)),
        Token::Star => Some((5, 6)),
        Token::Slash => Some((5, 6)),
        Token::At => Some((5, 6)),
        Token::Pow => Some((8, 7)),
        _ => None,
    }
}

fn combine_exec(t: &Token, l: Expr, r: Expr) -> (e: Expr)
    ensures
        e@ == infix_combine(t@, l@, r@),
{
    let (left, right) = (Box::new(l), Box::new(r));
    match t {
        Token::EqEq => Expr::Compare { op: CompareOp::Eq, left, right },
        Token::Plus => Expr::Binary { op: BinaryOp::Add, left, right },
        Token::Minus => Expr::Binary { op: BinaryOp::Sub, left, right },
        Token::Star => Expr::Binary { op: BinaryOp::Mul, left, right },
        Token::Slash => Expr::Binary { op: BinaryOp::Div, left, right },
        Token::At => Expr::Binary { op: BinaryOp::MatMul, left, right },
        _ => Expr::Binary { op: BinaryOp::Pow, left, right },
    }
}

fn infix_exec(toks: &Vec<Token>, lhs: Expr, i: usize, min_bp: u8) -> (r: Result<(Expr, usize), Vec<char>>)
    requires
        tokens_wf(tokens_view(toks@)),
        i < toks@.len(),
    ensures
        agrees(r, parse_infix(tokens_view(toks@), lhs@, i as int, min_bp), i as int, toks@.len() as int, false),
    decreases toks@.len() - i, 0int,
{
    let ghost t = tokens_view(toks@);
    let _len = toks.len();
    proof {
        lemma_tokens_view(toks@);
    }
    proof {
        assert(t[i as int] == toks@[i as int]@);
    }
    match infix_power_exec(&toks[i]) {
        None => Ok((lhs, i)),
        Some((lbp, rbp)) => {
            if lbp < min_bp {
                Ok((lhs, i))
            } else {
                proof {
                    lemma_inner(t, i as int);
                }
                match bp_exec(toks, i + 1, rbp) {
                    Err(m) => Err(m),
                    Ok((rhs, j)) => {
                        let combined = combine_exec(&toks[i], lhs, rhs);
                        infix_exec(toks, combined, j, min_bp)
                    },
                }
            }
        },
    }
}

fn call_exec(toks: &Vec<Token>, func: Expr, i: usize) -> (r: Result<(Expr, usize), Vec<char>>)
    requires
        tokens_wf(tokens_view(toks@)),
        i < toks@.len(),
        toks@[i as int]@ is LParen,
    ensures
        agrees(r, parse_call(tokens_view(toks@), func@, i as int), i as int, toks@.len() as int, true),
    decreases toks@.len() - i, 3int,
{
    let ghost t = tokens_view(toks@);
    let _len = toks.len();
    proof {
        lemma_tokens_view(toks@);
    }
    proof {
        assert(t[i as int] == toks@[i as int]@);
        lemma_inner(t, i as int);
        assert(t[i + 1] == toks@[i + 1]@);
        assert(exprs_view(Seq::<Expr>::empty()) == Seq::<ExprView>::empty());
    }
    match &toks[i + 1] {
        Token::RParen => {
            proof {
                lemma_inner(t, i + 1);
            }
            Ok((Expr::Call { func: Box::new(func), args: Vec::new() }, i + 2))
        },
        _ => args_exec(toks, func, Vec::new(), i + 1),
    }
}

fn args_exec(toks: &Vec<Token>, func: Expr, args: Vec<Expr>, i: usize) -> (r: Result<(Expr, usize), Vec<char>>)
    requires
        tokens_wf(tokens_view(toks@)),
        i < toks@.len(),
    ensures
        agrees(r, parse_args(tokens_view(toks@), func@, exprs_view(args@), i as int), i as int, toks@.len() as int, true),
    decreases toks@.len() - i, 2int,
{
    let ghost t = tokens_view(toks@);
    let _len = toks.len();
    proof {
        lemma_tokens_view(toks@);
    }
    match bp_exec(toks, i, 0) {
        Err(m) => Err(m),
        Ok((e, j)) => {
            let mut args = args;
            proof {
                lemma_exprs_view_push(args@, e);
                assert(t[j as int] == toks@[j as int]@);
            }
            args.push(e);
            match &toks[j] {
                Token::Comma => {
                    proof {
                        lemma_inner(t, j as int);
                        assert(t[j + 1] == toks@[j + 1]@);
                    }
                    match &toks[j + 1] {
                        Token::RParen => {
                            proof {
                                lemma_inner(t, j + 1);
                            }
                            Ok((Expr::Call { func: Box::new(func), args }, j + 2))
                        },
                        _ => args_exec(toks, func, args, j + 1),
                    }
                },
                Token::RParen => {
                    proof {
                        lemma_inner(t, j as int);
                    }
                    Ok((Expr::Call { func: Box::new(func), args }, j + 1))
                },
                other => Err(message_with_token("expected comma or right paren, found ", other)),
            }
        },
    }
}

fn subscript_exec(toks: &Vec<Token>, value: Expr, i: usize) -> (r: Result<(Expr, usize), Vec<char>>)
    requires
        tokens_wf(tokens_view(toks@)),
        i < toks@.len(),
        toks@[i as int]@ is LBracket,
    ensures
        agrees(r, parse_subscript(tokens_view(toks@), value@, i as int), i as int, toks@.len() as int, true),
    decreases toks@.len() - i, 3int,
{
    let ghost t = tokens_view(toks@);
    let _len = toks.len();
    proof {
        lemma_tokens_view(toks@);
    }
    proof {
        assert(t[i as int] == toks@[i as int]@);
        lemma_inner(t, i as int);
        assert(t[i + 1] == toks@[i + 1]@);
        assert(exprs_view(Seq::<Expr>::empty()) == Seq::<ExprView>::empty());
    }
    match &toks[i + 1] {
        Token::RBracket => {
            proof {
                lemma_inner(t, i + 1);
            }
            Ok((Expr::Subscript { value: Box::new(value), indices: Vec::new() }, i + 2))
        },
        _ => indices_exec(toks, value, Vec::new(), i + 1),
    }
}

fn bound_text_exec(e: &Expr) -> (r: Vec<char>)
    ensures
        r@ == bound_text(e@),
{
    match e {
        Expr::Literal(v) => chars_of(v.as_str()),
        Expr::Name(v) => chars_of(v.as_str()),
        _ => Vec::new(),
    }
}

fn indices_exec(toks: &Vec<Token>, value: Expr, idx: Vec<Expr>, i: usize) -> (r: Result<(Expr, usize), Vec<char>>)
    requires
        tokens_wf(tokens_view(toks@)),
        i < toks@.len(),
    ensures
        agrees(r, parse_indices(tokens_view(toks@), value@, exprs_view(idx@), i as int), i as int, toks@.len() as int, true),
    decreases toks@.len() - i, 2int,
{
    let ghost t = tokens_view(toks@);
    let _len = toks.len();
    proof {
        lemma_tokens_view(toks@);
    }
    match bp_exec(toks, i, 0) {
        Err(m) => Err(m),
        Ok((e, j)) => {
            proof {
                assert(t[j as int] == toks@[j as int]@);
            }
            let mut idx = idx;
            if let Token::Colon = &toks[j] {
                proof {
                    lemma_inner(t, j as int);
                    assert(t[j + 1] == toks@[j + 1]@);
                }
                let mut lit = bound_text_exec(&e);
                lit.push(':');
                assert(lit@ =~= bound_text(e@) + seq![':']);
                let stop = match &toks[j + 1] {
                    Token::Comma => true,
                    Token::RBracket => true,
                    _ => false,
                };
                if !stop {
                    match bp_exec(toks, j + 1, 0) {
                        Err(m) => Err(m),
                        Ok((e2, k)) => {
                            let right = bound_text_exec(&e2);
                            push_all(&mut lit, &right);
                            assert(lit@ =~= bound_text(e@) + seq![':'] + bound_text(e2@));
                            let piece = Expr::Literal(string_of(&lit));
                            proof {
                                lemma_exprs_view_push(idx@, piece);
                            }
                            idx.push(piece);
                            after_index_exec(toks, value, idx, k)
                        },
                    }
                } else {
                    let piece = Expr::Literal(string_of(&lit));
                    proof {
                        lemma_exprs_view_push(idx@, piece);
                    }
                    idx.push(piece);
                    after_index_exec(toks, value, idx, j + 1)
                }
            } else {
                proof {
                    lemma_exprs_view_push(idx@, e);
                }
                idx.push(e);
                after_index_exec(toks, value, idx, j)
            }
        },
    }
}

fn after_index_exec(toks: &Vec<Token>, value: Expr, idx: Vec<Expr>, j: usize) -> (r: Result<(Expr, usize), Vec<char>>)
    requires
        tokens_wf(tokens_view(toks@)),
        j < toks@.len(),
    ensures
        agrees(r, after_index(tokens_view(toks@), value@, exprs_view(idx@), j as int), j as int - 1, toks@.len() as int, true),
    decreases toks@.len() - j, 0int,
{
    let ghost t = tokens_view(toks@);
    let _len = toks.len();
    proof {
        lemma_tokens_view(toks@);
    }
    proof {
        assert(t[j as int] == toks@[j as int]@);
    }
    match &toks[j] {
        Token::Comma => {
            proof {
                lemma_inner(t, j as int);
                assert(t[j + 1] == toks@[j + 1]@);
            }
            match &toks[j + 1] {
                Token::RBracket => {
                    proof {
                        lemma_inner(t, j + 1);
                    }
                    Ok((Expr::Subscript { value: Box::new(value), indices: idx }, j + 2))
                },
                _ => indices_exec(toks, value, idx, j + 1),
            }
        },
        Token::RBracket => {
            proof {
                lemma_inner(t, j as int);
            }
            Ok((Expr::Subscript { value: Box::new(value), indices: idx }, j + 1))
        },
        other => Err(message_with_token("expected comma or right bracket, found ", other)),
    }
}

/// Parses a whole expression from well-formed tokens.
fn expression_exec(toks: &Vec<Token>) -> (r: Result<Expr, Vec<char>>)
    requires
        tokens_wf(tokens_view(toks@)),
    ensures
        match r {
            Ok(e) => parse_expression(tokens_view(toks@)) == Ok::<ExprView, Seq<char>>(e@),
            Err(m) => parse_expression(tokens_view(toks@)) == Err::<ExprView, Seq<char>>(m@),
        },
{
    let ghost t = tokens_view(toks@);
    let _len = toks.len();
    proof {
        lemma_tokens_view(toks@);
    }
    match bp_exec(toks, 0, 0) {
        Err(m) => Err(m),
        Ok((e, j)) => {
            proof {
                assert(t[j as int] == toks@[j as int]@);
            }
            match &toks[j] {
                Token::Eof => Ok(e),
                Token::RParen => Ok(e),
                Token::RBracket => Ok(e),
                Token::Comma => Ok(e),
                other => Err(message_with_token("unexpected token ", other)),
            }
        },
    }
}

/// The expression that the text `s` parses to, or the parser's message.
pub open spec fn parse_text(s: Seq<char>) -> Result<ExprView, Seq<char>> {
    match lex_all(s, 0) {
        Ok(t) => parse_expression(t),
        Err(m) => Err(m),
    }
}

/// Tokenizes and parses `s`.
pub fn parse_chars(s: &Vec<char>) -> (r: Result<Expr, Vec<char>>)
    ensures
        match r {
            Ok(e) => parse_text(s@) == Ok::<ExprView, Seq<char>>(e@),
            Err(m) => parse_text(s@) == Err::<ExprView, Seq<char>>(m@),
        },
{
    match tokenize(s) {
        Ok(toks) => expression_exec(&toks),
        Err(m) => Err(m),
    }
}


/// Where a trailing comment starts: the first `#` outside a quoted string, or the end.
/// Inside quotes a backslash skips the character after it.
pub open spec fn comment_cut(s: Seq<char>, i: int, quote: Option<char>) -> int
    decreases s.len() + 2 - i,
{
    if i < 0 || i >= s.len() {
        s.len() as int
    } else {
        let c = s[i];
        match quote {
            Some(q) => if c == '\\' {
                comment_cut(s, i + 2, quote)
            } else if c == q {
                comment_cut(s, i + 1, None)
            } else {
                comment_cut(s, i + 1, quote)
            },
            None => if c == '\'' || c == '"' {
                comment_cut(s, i + 1, Some(c))
            } else if c == '#' {
                i
            } else {
                comment_cut(s, i + 1, None)
            },
        }
    }
}

/// The text before its trailing comment.
pub open spec fn strip_comment(s: Seq<char>) -> Seq<char> {
    s.take(comment_cut(s, 0, None))
}

proof fn lemma_comment_cut(s: Seq<char>, i: int, quote: Option<char>)
    requires
        0 <= i,
    ensures
        0 <= comment_cut(s, i, quote) <= s.len(),
    decreases s.len() + 2 - i,
{
    if i < 0 || i >= s.len() {
    } else {
        let c = s[i];
        match quote {
            Some(q) => if c == '\\' {
                lemma_comment_cut(s, i + 2, quote);
            } else if c == q {
                lemma_comment_cut(s, i + 1, None);
            } else {
                lemma_comment_cut(s, i + 1, quote);
            },
            None => if c == '\'' || c == '"' {
                lemma_comment_cut(s, i + 1, Some(c));
            } else if c == '#' {
            } else {
                lemma_comment_cut(s, i + 1, None);
            },
        }
    }
}

fn strip_comment_chars(s: &Vec<char>) -> (r: Vec<char>)
    ensures
        r@ == strip_comment(s@),
{
    let mut i: usize = 0;
    let mut quote: Option<char> = None;
    proof {
        lemma_comment_cut(s@, 0, None);
    }
    while i < s.len()
        invariant
            comment_cut(s@, 0, None) == comment_cut(s@, i as int, quote),
            0 <= comment_cut(s@, 0, None) <= s@.len(),
        decreases s@.len() + 2 - i,
    {
        let c = s[i];
        match quote {
            Some(q) => {
                if c == '\\' {
                    if s.len() - i < 2 {
                        assert(comment_cut(s@, i + 2, quote) == s@.len());
                        assert(s@.take(s@.len() as int) =~= s@);
                        return subvec(s, 0, s.len());
                    }
                    i = i + 2;
                } else if c == q {
                    quote = None;
                    i = i + 1;
                } else {
                    i = i + 1;
                }
            },
            None => {
                if c == '\'' || c == '"' {
                    quote = Some(c);
                    i = i + 1;
                } else if c == '#' {
                    return subvec(s, 0, i);
                } else {
                    i = i + 1;
                }
            },
        }
    }
    subvec(s, 0, s.len())
}

/// The first index at or after `i` where `tok` stands outside quotes and at bracket depth 0
/// (`depth` counts the `( [ {` not yet closed before `i`).
pub open spec fn token_at(s: Seq<char>, tok: Seq<char>, i: int, quote: Option<char>, depth: int) -> Option<int>
    decreases s.len() + 2 - i,
{
    if i < 0 || i + tok.len() > s.len() {
        None
    } else {
        let c = s[i];
        match quote {
            Some(q) => if c == '\\' {
                token_at(s, tok, i + 2, quote, depth)
            } else if c == q {
                token_at(s, tok, i + 1, None, depth)
            } else {
                token_at(s, tok, i + 1, quote, depth)
            },
            None => if c == '\'' || c == '"' {
                token_at(s, tok, i + 1, Some(c), depth)
            } else if c == '(' || c == '[' || c == '{' {
                token_at(s, tok, i + 1, None, depth + 1)
            } else if c == ')' || c == ']' || c == '}' {
                token_at(s, tok, i + 1, None, depth - 1)
            } else if depth == 0 && s.subrange(i, i + tok.len()) == tok {
                Some(i)
            } else {
                token_at(s, tok, i + 1, None, depth)
            },
        }
    }
}

proof fn lemma_token_at(s: Seq<char>, tok: Seq<char>, i: int, quote: Option<char>, depth: int)
    requires
        0 <= i,
    ensures
        token_at(s, tok, i, quote, depth) matches Some(k) ==> i <= k && k + tok.len() <= s.len(),
    decreases s.len() + 2 - i,
{
    if i < 0 || i + tok.len() > s.len() {
    } else {
        let c = s[i];
        match quote {
            Some(q) => if c == '\\' {
                lemma_token_at(s, tok, i + 2, quote, depth);
            } else if c == q {
                lemma_token_at(s, tok, i + 1, None, depth);
            } else {
                lemma_token_at(s, tok, i + 1, quote, depth);
            },
            None => if c == '\'' || c == '"' {
                lemma_token_at(s, tok, i + 1, Some(c), depth);
            } else if c == '(' || c == '[' || c == '{' {
                lemma_token_at(s, tok, i + 1, None, depth + 1);
            } else if c == ')' || c == ']' || c == '}' {
                lemma_token_at(s, tok, i + 1, None, depth - 1);
            } else if depth == 0 && s.subrange(i, i + tok.len()) == tok {
            } else {
                lemma_token_at(s, tok, i + 1, None, depth);
            },
        }
    }
}

/// The two trimmed sides of the first top-level occurrence of `tok`.
pub open spec fn split_top(s: Seq<char>, tok: Seq<char>) -> Option<(Seq<char>, Seq<char>)> {
    match token_at(s, tok, 0, None, 0) {
        Some(i) => Some((trim(s.take(i)), trim(s.skip(i + tok.len())))),
        None => None,
    }
}

/// The sides of a top-level `=` that is not part of `==`, `!=`, `<=` or `>=`.
pub open spec fn split_assignment(s: Seq<char>) -> Option<(Seq<char>, Seq<char>)> {
    match split_top(s, seq!['=']) {
        Some((l, r)) => {
            let bad_left = l.len() > 0 && (l.last() == '=' || l.last() == '!' || l.last() == '<'
                || l.last() == '>');
            let bad_right = r.len() > 0 && r[0] == '=';
            if !bad_left && !bad_right {
                Some((l, r))
            } else {
                None
            }
        },
        None => None,
    }
}

fn split_top_chars(s: &Vec<char>, tok: &[char]) -> (r: Option<(Vec<char>, Vec<char>)>)
    requires
        tok@.len() > 0,
    ensures
        match r {
            Some((a, b)) => split_top(s@, tok@) == Some((a@, b@)),
            None => split_top(s@, tok@) is None,
        },
{
    let mut i: usize = 0;
    let mut quote: Option<char> = None;
    let mut opens: usize = 0;
    let mut closes: usize = 0;
    proof {
        lemma_token_at(s@, tok@, 0, None, 0);
    }
    while i <= s.len() && tok.len() <= s.len() - i
        invariant
            token_at(s@, tok@, 0, None, 0) == token_at(
                s@,
                tok@,
                i as int,
                quote,
                opens - closes,
            ),
            opens <= i,
            closes <= i,
            tok@.len() > 0,
            token_at(s@, tok@, 0, None, 0) matches Some(k) ==> k + tok@.len() <= s@.len(),
        decreases s@.len() + 2 - i,
    {
        let c = s[i];
        match quote {
            Some(q) => {
                if c == '\\' {
                    if s.len() - i < 2 {
                        assert(token_at(s@, tok@, i + 2, quote, opens - closes) is None);
                        return None;
                    }
                    i = i + 2;
                } else if c == q {
                    quote = None;
                    i = i + 1;
                } else {
                    i = i + 1;
                }
            },
            None => {
                if c == '\'' || c == '"' {
                    quote = Some(c);
                    i = i + 1;
                } else if c == '(' || c == '[' || c == '{' {
                    opens = opens + 1;
                    i = i + 1;
                } else if c == ')' || c == ']' || c == '}' {
                    closes = closes + 1;
                    i = i + 1;
                } else if opens == closes && crate::text::occurs_at_index(s, tok, i) {
                    let left = subvec(s, 0, i);
                    let right = subvec(s, i + tok.len(), s.len());
                    assert(left@ == s@.take(i as int));
                    assert(right@ == s@.skip(i + tok@.len()));
                    return Some((trim_chars(&left), trim_chars(&right)));
                } else {
                    i = i + 1;
                }
            },
        }
    }
    None
}

fn split_assignment_chars(s: &Vec<char>) -> (r: Option<(Vec<char>, Vec<char>)>)
    ensures
        match r {
            Some((a, b)) => split_assignment(s@) == Some((a@, b@)),
            None => split_assignment(s@) is None,
        },
{
    let eq = ['='];
    assert(eq@ == seq!['=']);
    match split_top_chars(s, &eq) {
        Some((l, r)) => {
            let n = l.len();
            let bad_left = n > 0 && (l[n - 1] == '=' || l[n - 1] == '!' || l[n - 1] == '<' || l[n
                - 1] == '>');
            let bad_right = r.len() > 0 && r[0] == '=';
            if !bad_left && !bad_right {
                Some((l, r))
            } else {
                None
            }
        },
        None => None,
    }
}

/// A statement: an assignment `target = value`, or an expression.
#[derive(Debug)]
pub enum Statement {
    Assignment { target: Expr, value: Expr },
    Expr(Expr),
}

pub enum StatementView {
    Assignment { target: ExprView, value: ExprView },
    Expr(ExprView),
}

impl View for Statement {
    type V = StatementView;

    open spec fn view(&self) -> StatementView {
        match self {
            Statement::Assignment { target, value } => StatementView::Assignment {
                target: target@,
                value: value@,
            },
            Statement::Expr(e) => StatementView::Expr(e@),
        }
    }
}

/// A lowered statement and the diagnostics of the parts that did not parse.
#[derive(Debug)]
pub struct LoweredStatement {
    pub statement: Statement,
    pub diagnostics: Vec<Diagnostic>,
}

/// The warning for a piece that did not parse.
pub open spec fn unsupported_diag(message: Seq<char>, range: TextRange) -> DiagnosticView {
    DiagnosticView {
        code: "mathdocs::unsupported"@,
        message,
        range,
        severity: DiagnosticSeverity::Warning,
    }
}

/// A piece of a statement as an expression: what it parses to, or `Unsupported` with the
/// piece's text.
pub open spec fn piece_expr(piece: Seq<char>) -> ExprView {
    match parse_text(piece) {
        Ok(e) => e,
        Err(_) => ExprView::Unsupported(piece),
    }
}

/// The diagnostics of a piece: none, or the parser's message as a warning.
pub open spec fn piece_diags(piece: Seq<char>, range: TextRange) -> Seq<DiagnosticView> {
    match parse_text(piece) {
        Ok(_) => seq![],
        Err(m) => seq![unsupported_diag(m, range)],
    }
}

/// The statement text that is parsed: lookups expanded, comment cut, blanks trimmed.
pub open spec fn clean_statement(source: Seq<char>) -> Seq<char> {
    trim(strip_comment(expand_spec(source)))
}

/// The lowered statement and its diagnostics. A top-level `=` makes an assignment; else a
/// top-level `==` makes an equation; else the whole text is one expression.
pub open spec fn lower_view(source: Seq<char>, range: TextRange) -> (StatementView, Seq<DiagnosticView>) {
    let clean = clean_statement(source);
    match split_assignment(clean) {
        Some((l, r)) => (
            StatementView::Assignment { target: piece_expr(l), value: piece_expr(r) },
            piece_diags(l, range) + piece_diags(r, range),
        ),
        None => match split_top(clean, "=="@) {
            Some((l, r)) => (
                StatementView::Expr(
                    ExprView::Compare {
                        op: CompareOp::Eq,
                        left: Box::new(piece_expr(l)),
                        right: Box::new(piece_expr(r)),
                    },
                ),
                piece_diags(l, range) + piece_diags(r, range),
            ),
            None => (StatementView::Expr(piece_expr(clean)), piece_diags(clean, range)),
        },
    }
}

fn parse_or_unsupported(piece: &Vec<char>, range: TextRange, diagnostics: &mut Vec<Diagnostic>) -> (e: Expr)
    ensures
        e@ == piece_expr(piece@),
        diags_view(final(diagnostics)@) == diags_view(old(diagnostics)@) + piece_diags(piece@, range),
{
    match parse_chars(piece) {
        Ok(e) => {
            assert(diags_view(diagnostics@) =~= diags_view(diagnostics@) + Seq::<DiagnosticView>::empty());
            e
        },
        Err(m) => {
            let d = Diagnostic::make("mathdocs::unsupported", m, range, DiagnosticSeverity::Warning);
            let ghost before = diagnostics@;
            diagnostics.push(d);
            assert(diags_view(diagnostics@) =~= diags_view(before) + seq![d@]);
            Expr::Unsupported(string_of(piece))
        },
    }
}

/// Lowers a math statement: expands `::query::` lookups, cuts the trailing comment, and
/// parses an assignment, an equation or an expression. A side that does not parse, or holds a
/// character that the lexer cannot read, becomes `Unsupported` with a warning at `range`.
pub fn lower_statement(source: &str, range: TextRange) -> (r: LoweredStatement)
    ensures
        r.statement@ == lower_view(source@, range).0,
        diags_view(r.diagnostics@) == lower_view(source@, range).1,
{
    let chars = chars_of(source);
    let expanded = expand_chars(&chars);
    let stripped = strip_comment_chars(&expanded);
    let clean = trim_chars(&stripped);
    let mut diagnostics: Vec<Diagnostic> = Vec::new();
    assert(diags_view(diagnostics@) =~= Seq::<DiagnosticView>::empty());
    if let Some((l, r)) = split_assignment_chars(&clean) {
        let target = parse_or_unsupported(&l, range, &mut diagnostics);
        let value = parse_or_unsupported(&r, range, &mut diagnostics);
        return LoweredStatement { statement: Statement::Assignment { target, value }, diagnostics };
    }
    let eqeq = ['=', '='];
    proof {
        reveal_strlit("==");
    }
    assert(eqeq@ == "=="@);
    if let Some((l, r)) = split_top_chars(&clean, &eqeq) {
        let left = parse_or_unsupported(&l, range, &mut diagnostics);
        let right = parse_or_unsupported(&r, range, &mut diagnostics);
        return LoweredStatement {
            statement: Statement::Expr(
                Expr::Compare { op: CompareOp::Eq, left: Box::new(left), right: Box::new(right) },
            ),
            diagnostics,
        };
    }
    let expr = parse_or_unsupported(&clean, range, &mut diagnostics);
    LoweredStatement { statement: Statement::Expr(expr), diagnostics }
}

/// The dotted name of a name or attribute chain (`np.linalg.norm`), else nothing.
pub open spec fn qualified_spec(e: ExprView) -> Option<Seq<char>>
    decreases e,
{
    match e {
        ExprView::Name(n) => Some(n),
        ExprView::Attribute { value, attr } => match qualified_spec(*value) {
            Some(q) => Some(q + seq!['.'] + attr),
            None => None,
        },
        _ => None,
    }
}

pub fn qualified_chars(expr: &Expr) -> (r: Option<Vec<char>>)
    ensures
        match r {
            Some(q) => qualified_spec(expr@) == Some(q@),
            None => qualified_spec(expr@) is None,
        },
    decreases expr,
{
    match expr {
        Expr::Name(n) => Some(chars_of(n.as_str())),
        Expr::Attribute { value, attr } => match qualified_chars(value) {
            Some(q) => {
                let mut out = q;
                out.push('.');
                let a = chars_of(attr.as_str());
                push_all(&mut out, &a);
                assert(out@ =~= q@ + seq!['.'] + attr@);
                Some(out)
            },
            None => None,
        },
        _ => None,
    }
}

/// The dotted name of a name or attribute chain (`np.linalg.norm`), else `None`.
pub fn qualified_name(expr: &Expr) -> (r: Option<String>)
    ensures
        match r {
            Some(q) => qualified_spec(expr@) == Some(q@),
            None => qualified_spec(expr@) is None,
        },
{
    match qualified_chars(expr) {
        Some(q) => Some(string_of(&q)),
        None => None,
    }
}

} // verus!
