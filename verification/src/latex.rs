//! LaTeX rendering of lowered statements: names through the metadata (symbols, tensors with
//! their indices, Greek letters), operators with grouping by precedence, calls through
//! function templates, and tensor contraction in `@` chains.
use vstd::prelude::*;
use crate::ast::{diags_view, Diagnostic, DiagnosticSeverity, DiagnosticView, TextRange};
use crate::ir::{
    qualified_chars, qualified_spec, BinaryOp, Expr, ExprView, Statement,
    StatementView, UnaryOp,
};
use crate::metadata::{decimal_value, MetadataIndex, MetadataView};
use crate::text::{
    chars_of, concat, contains, ends_with, join, push_all, push_str, replace_char,
    replace_char_chars, rfind, split_char, starts_with, string_of, subvec,
};

verus! {

/// The switches of automatic naming.
#[derive(Debug, Clone, Copy, PartialEq, Eq, Structural)]
pub struct RenderOptions {
    /// `a_b` renders as `a` with subscript `b`.
    pub underscore_subscripts: bool,
    /// Greek letter names render as the letters, and other names as upright words.
    pub auto_name_symbol: bool,
}

impl Default for RenderOptions {
    fn default() -> (r: RenderOptions)
        ensures
            r.underscore_subscripts,
            r.auto_name_symbol,
    {
        RenderOptions { underscore_subscripts: true, auto_name_symbol: true }
    }
}

/// The LaTeX of a statement and the diagnostics of its rendering.
#[derive(Debug, Clone)]
pub struct RenderedLatex {
    pub latex: String,
    pub diagnostics: Vec<Diagnostic>,
}

/// `\` becomes `\textbackslash{}`, then `{` and `}` are escaped (the braces of the first step
/// included).
pub open spec fn escape_text(v: Seq<char>) -> Seq<char> {
    replace_char(
        replace_char(replace_char(v, '\\', "\\textbackslash{}"@), '{', "\\{"@),
        '}',
        "\\}"@,
    )
}

/// `_` becomes `\_`.
pub open spec fn escape_literal(v: Seq<char>) -> Seq<char> {
    replace_char(v, '_', "\\_"@)
}

fn escape_text_chars(v: &[char]) -> (r: Vec<char>)
    ensures
        r@ == escape_text(v@),
{
    let a = chars_of("\\textbackslash{}");
    let b = chars_of("\\{");
    let c = chars_of("\\}");
    let s1 = replace_char_chars(v, '\\', &a);
    let s2 = replace_char_chars(&s1, '{', &b);
    replace_char_chars(&s2, '}', &c)
}

fn escape_literal_chars(v: &[char]) -> (r: Vec<char>)
    ensures
        r@ == escape_literal(v@),
{
    let a = chars_of("\\_");
    replace_char_chars(v, '_', &a)
}

/// Whether `name` is the Greek letter `letter`, or (where `words` holds) its English name.
pub open spec fn greek_is(name: Seq<char>, word: Seq<char>, letter: char, words: bool) -> bool {
    name == seq![letter] || (words && name == word)
}

/// The LaTeX command of a lowercase Greek letter written as the letter, or (where `words`
/// holds) as its English name.
pub open spec fn greek_spec(name: Seq<char>, words: bool) -> Option<Seq<char>> {
    if greek_is(name, "alpha"@, '\u{3b1}', words) {
        Some("\\alpha"@)
    } else if greek_is(name, "beta"@, '\u{3b2}', words) {
        Some("\\beta"@)
    } else if greek_is(name, "gamma"@, '\u{3b3}', words) {
        Some("\\gamma"@)
    } else if greek_is(name, "delta"@, '\u{3b4}', words) {
        Some("\\delta"@)
    } else if greek_is(name, "epsilon"@, '\u{3b5}', words) {
        Some("\\epsilon"@)
    } else if greek_is(name, "theta"@, '\u{3b8}', words) {
        Some("\\theta"@)
    } else if greek_is(name, "lambda"@, '\u{3bb}', words) {
        Some("\\lambda"@)
    } else if greek_is(name, "mu"@, '\u{3bc}', words) {
        Some("\\mu"@)
    } else if greek_is(name, "nu"@, '\u{3bd}', words) {
        Some("\\nu"@)
    } else if greek_is(name, "rho"@, '\u{3c1}', words) {
        Some("\\rho"@)
    } else if greek_is(name, "sigma"@, '\u{3c3}', words) {
        Some("\\sigma"@)
    } else if greek_is(name, "tau"@, '\u{3c4}', words) {
        Some("\\tau"@)
    } else if greek_is(name, "phi"@, '\u{3c6}', words) {
        Some("\\phi"@)
    } else if greek_is(name, "psi"@, '\u{3c8}', words) {
        Some("\\psi"@)
    } else if greek_is(name, "omega"@, '\u{3c9}', words) {
        Some("\\omega"@)
    } else {
        None
    }
}

fn greek_is_exec(name: &[char], word: &str, letter: char, words: bool) -> (r: bool)
    ensures
        r == greek_is(name@, word@, letter, words),
{
    let one = [letter];
    assert(one@ == seq![letter]);
    if crate::text::seq_eq(name, &one) {
        return true;
    }
    words && crate::text::eq_str(name, word)
}

fn greek_chars(name: &[char], words: bool) -> (r: Option<Vec<char>>)
    ensures
        match r {
            Some(g) => greek_spec(name@, words) == Some(g@),
            None => greek_spec(name@, words) is None,
        },
{
    if greek_is_exec(name, "alpha", '\u{3b1}', words) {
        Some(chars_of("\\alpha"))
    } else if greek_is_exec(name, "beta", '\u{3b2}', words) {
        Some(chars_of("\\beta"))
    } else if greek_is_exec(name, "gamma", '\u{3b3}', words) {
        Some(chars_of("\\gamma"))
    } else if greek_is_exec(name, "delta", '\u{3b4}', words) {
        Some(chars_of("\\delta"))
    } else if greek_is_exec(name, "epsilon", '\u{3b5}', words) {
        Some(chars_of("\\epsilon"))
    } else if greek_is_exec(name, "theta", '\u{3b8}', words) {
        Some(chars_of("\\theta"))
    } else if greek_is_exec(name, "lambda", '\u{3bb}', words) {
        Some(chars_of("\\lambda"))
    } else if greek_is_exec(name, "mu", '\u{3bc}', words) {
        Some(chars_of("\\mu"))
    } else if greek_is_exec(name, "nu", '\u{3bd}', words) {
        Some(chars_of("\\nu"))
    } else if greek_is_exec(name, "rho", '\u{3c1}', words) {
        Some(chars_of("\\rho"))
    } else if greek_is_exec(name, "sigma", '\u{3c3}', words) {
        Some(chars_of("\\sigma"))
    } else if greek_is_exec(name, "tau", '\u{3c4}', words) {
        Some(chars_of("\\tau"))
    } else if greek_is_exec(name, "phi", '\u{3c6}', words) {
        Some(chars_of("\\phi"))
    } else if greek_is_exec(name, "psi", '\u{3c8}', words) {
        Some(chars_of("\\psi"))
    } else if greek_is_exec(name, "omega", '\u{3c9}', words) {
        Some(chars_of("\\omega"))
    } else {
        None
    }
}

/// A name without its `_prime` suffix, and `'` where there was one.
pub open spec fn strip_prime(name: Seq<char>) -> (Seq<char>, Seq<char>) {
    if ends_with(name, "_prime"@) {
        (name.take(name.len() - 6), seq!['\''])
    } else {
        (name, seq![])
    }
}

fn strip_prime_chars(name: &[char]) -> (r: (Vec<char>, Vec<char>))
    ensures
        (r.0@, r.1@) == strip_prime(name@),
{
    if crate::text::ends_with_str(name, "_prime") {
        proof {
            reveal_strlit("_prime");
        }
        let base = subvec(name, 0, name.len() - 6);
        let mut prime: Vec<char> = Vec::new();
        prime.push('\'');
        assert(prime@ == seq!['\'']);
        (base, prime)
    } else {
        (subvec(name, 0, name.len()), Vec::new())
    }
}

/// Every character is alphabetic (true of the empty name).
pub open spec fn all_alphabetic(s: Seq<char>) -> bool {
    forall|i: int| 0 <= i < s.len() ==> crate::text::char_is_alphabetic(#[trigger] s[i])
}

/// Every character is an ASCII letter (true of the empty name).
pub open spec fn all_ascii_alphabetic(s: Seq<char>) -> bool {
    forall|i: int| 0 <= i < s.len() ==> crate::text::is_ascii_alphabetic(#[trigger] s[i])
}

fn all_alphabetic_chars(s: &[char]) -> (r: bool)
    ensures
        r == all_alphabetic(s@),
{
    for i in 0..s.len()
        invariant
            forall|k: int| 0 <= k < i ==> crate::text::char_is_alphabetic(#[trigger] s@[k]),
    {
        if !crate::text::is_alphabetic(s[i]) {
            return false;
        }
    }
    true
}

fn all_ascii_alphabetic_chars(s: &[char]) -> (r: bool)
    ensures
        r == all_ascii_alphabetic(s@),
{
    for i in 0..s.len()
        invariant
            forall|k: int| 0 <= k < i ==> crate::text::is_ascii_alphabetic(#[trigger] s@[k]),
    {
        if !crate::text::is_ascii_alphabetic_char(s[i]) {
            return false;
        }
    }
    true
}

/// `\operatorname{name}` with the name escaped.
pub open spec fn operatorname(name: Seq<char>) -> Seq<char> {
    "\\operatorname{"@ + escape_text(name) + "}"@
}

fn operatorname_chars(name: &[char]) -> (r: Vec<char>)
    ensures
        r@ == operatorname(name@),
{
    let mut r = chars_of("\\operatorname{");
    let e = escape_text_chars(name);
    push_all(&mut r, &e);
    push_str(&mut r, "}");
    r
}

/// The LaTeX of a bare name (no subscripts): a Greek letter, an upright word, a single ASCII
/// character as it is, or the name with `_` escaped.
pub open spec fn identifier_base(name: Seq<char>, o: RenderOptions) -> Seq<char> {
    if o.auto_name_symbol && greek_spec(name, true) is Some {
        greek_spec(name, true)->0
    } else if !o.auto_name_symbol && all_alphabetic(name) {
        operatorname(name)
    } else if greek_spec(name, false) is Some {
        greek_spec(name, false)->0
    } else if crate::text::utf8_len(name) == 1 {
        name
    } else if all_ascii_alphabetic(name) {
        operatorname(name)
    } else {
        escape_literal(name)
    }
}

fn identifier_base_chars(name: &[char], o: RenderOptions) -> (r: Vec<char>)
    ensures
        r@ == identifier_base(name@, o),
{
    if o.auto_name_symbol {
        if let Some(g) = greek_chars(name, true) {
            return g;
        }
    }
    if !o.auto_name_symbol && all_alphabetic_chars(name) {
        return operatorname_chars(name);
    }
    if let Some(g) = greek_chars(name, false) {
        return g;
    }
    proof {
        crate::text::lemma_utf8_len_bounds(name@);
        if name@.len() == 1 {
            assert(name@.drop_last().len() == 0);
            assert(crate::text::utf8_len(name@) == crate::text::utf8_len(name@.drop_last())
                + crate::text::utf8_width(name@.last()));
        }
    }
    if name.len() == 1 && (name[0] as u32) < 0x80 {
        assert(name@.subrange(0, 1) =~= name@);
        return subvec(name, 0, 1);
    }
    if all_ascii_alphabetic_chars(name) {
        return operatorname_chars(name);
    }
    escape_literal_chars(name)
}

/// The LaTeX of an index piece: a command as it is, a Greek name (where automatic naming is
/// on), else the piece with `_` escaped.
pub open spec fn index_piece(name: Seq<char>, o: RenderOptions) -> Seq<char> {
    if starts_with(name, "\\"@) {
        name
    } else if o.auto_name_symbol && greek_spec(name, true) is Some {
        greek_spec(name, true)->0
    } else {
        escape_literal(name)
    }
}

/// The LaTeX of an index written out in a tensor's index list.
pub open spec fn explicit_index_piece(name: Seq<char>) -> Seq<char> {
    if starts_with(name, "\\"@) {
        name
    } else if greek_spec(name, true) is Some {
        greek_spec(name, true)->0
    } else {
        escape_literal(name)
    }
}

fn index_piece_chars(name: &[char], o: RenderOptions) -> (r: Vec<char>)
    ensures
        r@ == index_piece(name@, o),
{
    if crate::text::starts_with_str(name, "\\") {
        return subvec(name, 0, name.len());
    }
    if o.auto_name_symbol {
        if let Some(g) = greek_chars(name, true) {
            return g;
        }
    }
    escape_literal_chars(name)
}

fn explicit_index_piece_chars(name: &[char]) -> (r: Vec<char>)
    ensures
        r@ == explicit_index_piece(name@),
{
    if crate::text::starts_with_str(name, "\\") {
        return subvec(name, 0, name.len());
    }
    if let Some(g) = greek_chars(name, true) {
        return g;
    }
    escape_literal_chars(name)
}

/// The LaTeX of an index piece of each part.
pub open spec fn index_pieces(parts: Seq<Seq<char>>, o: RenderOptions) -> Seq<Seq<char>> {
    parts.map_values(|p: Seq<char>| index_piece(p, o))
}

/// The LaTeX of an identifier: with automatic subscripts, `a_b_c` is `a` with the subscript
/// `bc`; a `_prime` suffix becomes `'`.
pub open spec fn identifier(name: Seq<char>, o: RenderOptions) -> Seq<char> {
    let (base, prime) = strip_prime(name);
    if o.underscore_subscripts && contains(base, seq!['_']) {
        let parts = split_char(base, '_');
        identifier_base(parts[0], o) + "_{"@ + concat(index_pieces(parts.skip(1), o)) + "}"@
            + prime
    } else {
        identifier_base(base, o) + prime
    }
}

fn concat_chars(pieces: &Vec<Vec<char>>) -> (r: Vec<char>)
    ensures
        r@ == concat(crate::metadata::pieces_view(pieces@)),
{
    let empty: [char; 0] = [];
    assert(empty@ == Seq::<char>::empty());
    let r = crate::text::join_chars(pieces, &empty);
    assert(pieces@.map_values(|p: Vec<char>| p@) =~= crate::metadata::pieces_view(pieces@));
    r
}

fn identifier_chars(name: &[char], o: RenderOptions) -> (r: Vec<char>)
    ensures
        r@ == identifier(name@, o),
{
    let (base, prime) = strip_prime_chars(name);
    let under = ['_'];
    assert(under@ == seq!['_']);
    if o.underscore_subscripts && crate::text::find_chars(&base, &under).is_some() {
        let parts = crate::text::split_on_char(&base, '_');
        let ghost ps = split_char(base@, '_');
        proof {
            crate::scan::lemma_split_char_nonempty(base@, '_');
        }
        let mut r = identifier_base_chars(&parts[0], o);
        push_str(&mut r, "_{");
        let mut subs: Vec<Vec<char>> = Vec::new();
        let mut k: usize = 1;
        while k < parts.len()
            invariant
                1 <= k <= parts@.len(),
                parts@.len() == ps.len(),
                forall|j: int| 0 <= j < parts@.len() ==> #[trigger] parts@[j]@ == ps[j],
                subs@.len() == k - 1,
                forall|j: int| 0 <= j < k - 1 ==> #[trigger] subs@[j]@ == index_piece(ps[j + 1], o),
            decreases parts@.len() - k,
        {
            subs.push(index_piece_chars(&parts[k], o));
            k = k + 1;
        }
        assert(crate::metadata::pieces_view(subs@) =~= index_pieces(ps.skip(1), o));
        let joined = concat_chars(&subs);
        push_all(&mut r, &joined);
        push_str(&mut r, "}");
        push_all(&mut r, &prime);
        assert(parts@[0]@ == ps[0]);
        r
    } else {
        let mut r = identifier_base_chars(&base, o);
        push_all(&mut r, &prime);
        r
    }
}


/// A base that already carries a sub- or superscript is braced before an index is added.
pub open spec fn indexed_base(b: Seq<char>) -> Seq<char> {
    if contains(b, seq!['_']) || contains(b, seq!['^']) {
        seq!['{'] + b + seq!['}']
    } else {
        b
    }
}

/// The LaTeX of one index of a tensor: the symbol's LaTeX where the metadata has it.
pub open spec fn index_latex_for(m: MetadataView, idx: Seq<char>) -> Seq<char> {
    if m.symbols.contains_key(idx) {
        m.symbols[idx].latex
    } else {
        explicit_index_piece(idx)
    }
}

pub open spec fn index_latexes(m: MetadataView, indices: Seq<Seq<char>>) -> Seq<Seq<char>> {
    indices.map_values(|i: Seq<char>| index_latex_for(m, i))
}

/// `base` with the indices as a subscript (`A_{ij}`); no indices leave it as it is.
pub open spec fn tensor_latex(base: Seq<char>, indices: Seq<Seq<char>>, m: MetadataView) -> Seq<char> {
    if indices.len() == 0 {
        base
    } else {
        indexed_base(base) + "_{"@ + concat(index_latexes(m, indices)) + "}"@
    }
}

fn indexed_base_chars(b: &[char]) -> (r: Vec<char>)
    ensures
        r@ == indexed_base(b@),
{
    let u = ['_'];
    let h = ['^'];
    assert(u@ == seq!['_']);
    assert(h@ == seq!['^']);
    if crate::text::find_chars(b, &u).is_some() || crate::text::find_chars(b, &h).is_some() {
        let mut r: Vec<char> = Vec::new();
        r.push('{');
        push_all(&mut r, b);
        r.push('}');
        assert(r@ =~= seq!['{'] + b@ + seq!['}']);
        r
    } else {
        subvec(b, 0, b.len())
    }
}

fn tensor_latex_chars(base: &[char], indices: &Vec<Vec<char>>, m: &MetadataIndex) -> (r: Vec<char>)
    ensures
        r@ == tensor_latex(base@, crate::metadata::pieces_view(indices@), m@),
{
    if indices.len() == 0 {
        return subvec(base, 0, base.len());
    }
    let ghost iv = crate::metadata::pieces_view(indices@);
    let mut pieces: Vec<Vec<char>> = Vec::new();
    for k in 0..indices.len()
        invariant
            iv == crate::metadata::pieces_view(indices@),
            pieces@.len() == k,
            forall|j: int| 0 <= j < k ==> #[trigger] pieces@[j]@ == index_latex_for(m@, iv[j]),
    {
        let piece = match m.symbol_by_chars(&indices[k]) {
            Some(meta) => chars_of(meta.latex.as_str()),
            None => explicit_index_piece_chars(&indices[k]),
        };
        pieces.push(piece);
    }
    assert(crate::metadata::pieces_view(pieces@) =~= index_latexes(m@, iv));
    let mut r = indexed_base_chars(base);
    push_str(&mut r, "_{");
    let joined = concat_chars(&pieces);
    push_all(&mut r, &joined);
    push_str(&mut r, "}");
    r
}

/// `latex` in `\left( \right)` where its precedence is below the parent's.
pub open spec fn group_below(latex: Seq<char>, precedence: u8, parent: u8) -> Seq<char> {
    if precedence < parent {
        "\\left("@ + latex + "\\right)"@
    } else {
        latex
    }
}

fn group_below_chars(latex: &[char], precedence: u8, parent: u8) -> (r: Vec<char>)
    ensures
        r@ == group_below(latex@, precedence, parent),
{
    if precedence < parent {
        let mut r = chars_of("\\left(");
        push_all(&mut r, latex);
        push_str(&mut r, "\\right)");
        r
    } else {
        subvec(latex, 0, latex.len())
    }
}

/// The decimal digits of `n`.
pub open spec fn decimal_text(n: nat) -> Seq<char>
    decreases n,
{
    if n < 10 {
        seq![((48 + n) as u8) as char]
    } else {
        decimal_text(n / 10).push(((48 + n % 10) as u8) as char)
    }
}

pub fn decimal_chars(n: usize) -> (r: Vec<char>)
    ensures
        r@ == decimal_text(n as nat),
    decreases n,
{
    if n < 10 {
        let mut r: Vec<char> = Vec::new();
        r.push(((48 + n) as u8) as char);
        r
    } else {
        let mut r = decimal_chars(n / 10);
        r.push(((48 + n % 10) as u8) as char);
        r
    }
}

/// An argument number as `str::parse::<usize>` reads it, with `usize::MAX` where it
/// overflows.
pub open spec fn argument_number(d: Seq<char>) -> int {
    if decimal_value(d) <= usize::MAX {
        decimal_value(d)
    } else {
        usize::MAX as int
    }
}

fn argument_number_chars(d: &[char]) -> (n: usize)
    requires
        forall|j: int| 0 <= j < d@.len() ==> crate::text::is_ascii_digit(#[trigger] d@[j]),
    ensures
        n == argument_number(d@),
{
    let mut v: usize = 0;
    let mut i: usize = 0;
    while i < d.len()
        invariant
            i <= d@.len(),
            forall|j: int| 0 <= j < d@.len() ==> crate::text::is_ascii_digit(#[trigger] d@[j]),
            v == decimal_value(d@.take(i as int)),
        decreases d@.len() - i,
    {
        assert(d@.take(i + 1).drop_last() == d@.take(i as int));
        assert(d@.take(i + 1).last() == d@[i as int]);
        let digit = (d[i] as u32 - '0' as u32) as usize;
        let m = match v.checked_mul(10) {
            Some(m) => m,
            None => {
                proof {
                    crate::metadata::lemma_decimal_prefix_le(d@, i + 1);
                }
                return usize::MAX;
            },
        };
        v = match m.checked_add(digit) {
            Some(x) => x,
            None => {
                proof {
                    crate::metadata::lemma_decimal_prefix_le(d@, i + 1);
                }
                return usize::MAX;
            },
        };
        i = i + 1;
    }
    assert(d@.take(d@.len() as int) == d@);
    v
}

/// The warning for a template placeholder beyond the call's arguments.
pub open spec fn arity_diag(n: int, count: int, range: TextRange) -> DiagnosticView {
    DiagnosticView {
        code: "mathdocs::template-arity"@,
        message: "template references argument "@ + decimal_text(n as nat) + ", but call has "@
            + decimal_text(count as nat) + " argument(s)"@,
        range,
        severity: DiagnosticSeverity::Warning,
    }
}

/// A template filled from index `i` on: `{{` and `}}` are literal braces, `{n}` is argument
/// `n` (a warning where there is none), anything else is copied.
pub open spec fn template_from(t: Seq<char>, args: Seq<Seq<char>>, range: TextRange, i: int) -> (
    Seq<char>,
    Seq<DiagnosticView>,
)
    decreases t.len() - i,
{
    if i < 0 || i >= t.len() {
        (seq![], seq![])
    } else if t[i] == '{' && i + 1 < t.len() && t[i + 1] == '{' {
        let rest = template_from(t, args, range, i + 2);
        (seq!['{'] + rest.0, rest.1)
    } else if t[i] == '}' && i + 1 < t.len() && t[i + 1] == '}' {
        let rest = template_from(t, args, range, i + 2);
        (seq!['}'] + rest.0, rest.1)
    } else if t[i] == '{' {
        let end = crate::metadata::digits_from(t, i + 1);
        if i + 1 < end < t.len() && t[end] == '}' {
            let n = argument_number(t.subrange(i + 1, end));
            let rest = template_from(t, args, range, end + 1);
            if n < args.len() {
                (args[n] + rest.0, rest.1)
            } else {
                (rest.0, seq![arity_diag(n, args.len() as int, range)] + rest.1)
            }
        } else {
            let rest = template_from(t, args, range, i + 1);
            (seq!['{'] + rest.0, rest.1)
        }
    } else {
        let rest = template_from(t, args, range, i + 1);
        (seq![t[i]] + rest.0, rest.1)
    }
}

fn arity_diagnostic(n: usize, count: usize, range: TextRange) -> (d: Diagnostic)
    ensures
        d@ == arity_diag(n as int, count as int, range),
{
    let mut m = chars_of("template references argument ");
    let a = decimal_chars(n);
    push_all(&mut m, &a);
    push_str(&mut m, ", but call has ");
    let b = decimal_chars(count);
    push_all(&mut m, &b);
    push_str(&mut m, " argument(s)");
    Diagnostic::make("mathdocs::template-arity", m, range, DiagnosticSeverity::Warning)
}

fn apply_template_chars(t: &[char], args: &Vec<Vec<char>>, range: TextRange) -> (r: (Vec<char>, Vec<Diagnostic>))
    ensures
        (r.0@, diags_view(r.1@)) == template_from(t@, crate::metadata::pieces_view(args@), range, 0),
{
    let ghost av = crate::metadata::pieces_view(args@);
    let mut out: Vec<char> = Vec::new();
    let mut diags: Vec<Diagnostic> = Vec::new();
    let mut i: usize = 0;
    let n = t.len();
    assert(diags_view(diags@) =~= Seq::<DiagnosticView>::empty());
    while i < n
        invariant
            n == t@.len(),
            i <= n + 1,
            av == crate::metadata::pieces_view(args@),
            template_from(t@, av, range, 0) == (
                out@ + template_from(t@, av, range, i as int).0,
                diags_view(diags@) + template_from(t@, av, range, i as int).1,
            ),
        decreases n + 1 - i,
    {
        let ghost prev_out = out@;
        let ghost prev_d = diags_view(diags@);
        if t[i] == '{' && i + 1 < n && t[i + 1] == '{' {
            out.push('{');
            assert(out@ + template_from(t@, av, range, i + 2).0 =~= prev_out + (seq!['{']
                + template_from(t@, av, range, i + 2).0));
            i = i + 2;
        } else if t[i] == '}' && i + 1 < n && t[i + 1] == '}' {
            out.push('}');
            assert(out@ + template_from(t@, av, range, i + 2).0 =~= prev_out + (seq!['}']
                + template_from(t@, av, range, i + 2).0));
            i = i + 2;
        } else if t[i] == '{' {
            let mut end = i + 1;
            while end < n && crate::text::is_ascii_digit_char(t[end])
                invariant
                    i + 1 <= end <= n,
                    n == t@.len(),
                    crate::metadata::digits_from(t@, i + 1) == crate::metadata::digits_from(
                        t@,
                        end as int,
                    ),
                decreases n - end,
            {
                end = end + 1;
            }
            proof {
                crate::metadata::lemma_digits_bounds(t@, i + 1);
            }
            if i + 1 < end && end < n && t[end] == '}' {
                let digits = subvec(t, i + 1, end);
                proof {
                    assert forall|j: int| 0 <= j < digits@.len() implies crate::text::is_ascii_digit(
                        #[trigger] digits@[j],
                    ) by {
                        assert(digits@[j] == t@[i + 1 + j]);
                    }
                }
                let k = argument_number_chars(&digits);
                if k < args.len() {
                    push_all(&mut out, &args[k]);
                    assert(out@ + template_from(t@, av, range, end + 1).0 =~= prev_out + (av[k as int]
                        + template_from(t@, av, range, end + 1).0));
                } else {
                    let d = arity_diagnostic(k, args.len(), range);
                    diags.push(d);
                    assert(diags_view(diags@) + template_from(t@, av, range, end + 1).1 =~= prev_d
                        + (seq![d@] + template_from(t@, av, range, end + 1).1));
                }
                i = end + 1;
            } else {
                out.push('{');
                assert(out@ + template_from(t@, av, range, i + 1).0 =~= prev_out + (seq!['{']
                    + template_from(t@, av, range, i + 1).0));
                i = i + 1;
            }
        } else {
            out.push(t[i]);
            assert(out@ + template_from(t@, av, range, i + 1).0 =~= prev_out + (seq![t@[i as int]]
                + template_from(t@, av, range, i + 1).0));
            i = i + 1;
        }
    }
    assert(out@ + template_from(t@, av, range, i as int).0 =~= out@);
    assert(diags_view(diags@) + template_from(t@, av, range, i as int).1 =~= diags_view(diags@));
    (out, diags)
}


/// A rendered expression: its LaTeX, its precedence, the free indices it carries, whether
/// it was written in index notation, and its diagnostics.
pub struct RenderedView {
    pub latex: Seq<char>,
    pub precedence: u8,
    pub indices: Option<Seq<Seq<char>>>,
    pub tensor_notation: bool,
    pub diagnostics: Seq<DiagnosticView>,
}

/// What the surrounding expression asks of a name: the indices it is expected to carry,
/// whether index notation is forced, and whether indices are left to a subscript.
pub struct ContextView {
    pub expected: Option<Seq<Seq<char>>>,
    pub force_tensor: bool,
    pub suppress: bool,
}

pub open spec fn plain_ctx() -> ContextView {
    ContextView { expected: None, force_tensor: false, suppress: false }
}

pub open spec fn force_ctx() -> ContextView {
    ContextView { expected: None, force_tensor: true, suppress: false }
}

pub open spec fn leaf(latex: Seq<char>) -> RenderedView {
    RenderedView {
        latex,
        precedence: 100,
        indices: None,
        tensor_notation: false,
        diagnostics: seq![],
    }
}

/// The index names of the tensor registered under `name`.
pub open spec fn symbol_indices(m: MetadataView, name: Seq<char>) -> Option<Seq<Seq<char>>> {
    if m.symbols.contains_key(name) {
        match m.symbols[name].tensor {
            Some(t) => Some(t.indices.map_values(|i: crate::metadata::IndexMetaView| i.name)),
            None => None,
        }
    } else {
        None
    }
}

/// A name: the metadata's LaTeX (with indices where a tensor is asked for them), an
/// unknown name with the expected indices, or the identifier's LaTeX.
pub open spec fn render_name(name: Seq<char>, m: MetadataView, o: RenderOptions, c: ContextView) -> RenderedView {
    let indices = symbol_indices(m, name);
    if m.symbols.contains_key(name) {
        let meta = m.symbols[name];
        if meta.tensor is Some && !c.suppress && (c.force_tensor || c.expected is Some) {
            let idx = match c.expected {
                Some(e) => e,
                None => match indices {
                    Some(i) => i,
                    None => seq![],
                },
            };
            RenderedView {
                latex: tensor_latex(meta.latex, idx, m),
                precedence: 100,
                indices,
                tensor_notation: true,
                diagnostics: seq![],
            }
        } else {
            RenderedView {
                latex: meta.latex,
                precedence: 100,
                indices,
                tensor_notation: false,
                diagnostics: seq![],
            }
        }
    } else if c.expected is Some && !c.suppress {
        let (base, prime) = strip_prime(name);
        RenderedView {
            latex: tensor_latex(identifier_base(base, o) + prime, c.expected->0, m),
            precedence: 100,
            indices,
            tensor_notation: true,
            diagnostics: seq![],
        }
    } else {
        RenderedView {
            latex: identifier(name, o),
            precedence: 100,
            indices,
            tensor_notation: false,
            diagnostics: seq![],
        }
    }
}

/// The diagnostics of the rendered pieces, in order.
pub open spec fn concat_diags(rs: Seq<RenderedView>) -> Seq<DiagnosticView>
    decreases rs.len(),
{
    if rs.len() == 0 {
        seq![]
    } else {
        concat_diags(rs.drop_last()) + rs.last().diagnostics
    }
}

pub open spec fn latexes(rs: Seq<RenderedView>) -> Seq<Seq<char>> {
    rs.map_values(|r: RenderedView| r.latex)
}

/// The part of a dotted name after its last dot.
pub open spec fn last_segment(n: Seq<char>) -> Seq<char> {
    match rfind(n, seq!['.']) {
        Some(k) => n.skip(k + 1),
        None => n,
    }
}

/// The function template that a call uses: by its dotted name, else by its last segment.
pub open spec fn call_meta(q: Option<Seq<char>>, short: Seq<char>, m: MetadataView) -> Option<
    crate::metadata::FunctionMetaView,
> {
    if q is Some && m.functions.contains_key(q->0) {
        Some(m.functions[q->0])
    } else if m.functions.contains_key(short) {
        Some(m.functions[short])
    } else {
        None
    }
}

/// A call, from its rendered arguments: the function's LaTeX template filled with them, or
/// `\operatorname{f}\left(a, b\right)`.
pub open spec fn call_result(func: ExprView, rendered: Seq<RenderedView>, m: MetadataView, range: TextRange) -> RenderedView {
    let q = qualified_spec(func);
    let short = match q {
        Some(n) => last_segment(n),
        None => "call"@,
    };
    let diags = concat_diags(rendered);
    let args = latexes(rendered);
    match call_meta(q, short, m) {
        Some(f) if f.latex_template is Some => {
            let (latex, td) = template_from(f.latex_template->0, args, range, 0);
            RenderedView {
                latex,
                precedence: match f.precedence {
                    Some(p) => p,
                    None => 100,
                },
                indices: None,
                tensor_notation: false,
                diagnostics: diags + td,
            }
        },
        _ => RenderedView {
            latex: "\\operatorname{"@ + escape_text(short) + "}\\left("@ + join(args, ", "@)
                + "\\right)"@,
            precedence: 100,
            indices: None,
            tensor_notation: false,
            diagnostics: diags,
        },
    }
}

/// The number of leading backslashes.
pub open spec fn lead_backslashes(l: Seq<char>, i: int) -> int
    decreases l.len() - i,
{
    if 0 <= i < l.len() && l[i] == '\\' {
        lead_backslashes(l, i + 1)
    } else {
        i
    }
}

pub open spec fn strip_backslashes(l: Seq<char>) -> Seq<char> {
    l.skip(lead_backslashes(l, 0))
}

/// A subscript `x[i, j]`: the base with the rendered indices as a tensor subscript.
pub open spec fn subscript_result(base: RenderedView, ri: Seq<RenderedView>, m: MetadataView) -> RenderedView {
    let lat = latexes(ri);
    RenderedView {
        latex: tensor_latex(base.latex, lat, m),
        precedence: 100,
        indices: Some(lat.map_values(|l: Seq<char>| strip_backslashes(l))),
        tensor_notation: true,
        diagnostics: base.diagnostics + concat_diags(ri),
    }
}

/// The state of a `@` chain: the LaTeX so far, the diagnostics, the free indices.
pub struct MatState {
    pub latex: Seq<char>,
    pub diagnostics: Seq<DiagnosticView>,
    pub free: Option<Seq<Seq<char>>>,
}

pub open spec fn contraction_diag(a: Seq<char>, b: Seq<char>, range: TextRange) -> DiagnosticView {
    DiagnosticView {
        code: "mathdocs::tensor-index"@,
        message: "cannot infer contraction for indices ending in "@ + a + " and starting with "@
            + b,
        range,
        severity: DiagnosticSeverity::Warning,
    }
}

/// One operand of a `@` chain: its LaTeX is appended; the last free index of the chain and
/// the operand's first index contract when they are equal, else a warning is given and all
/// indices stay free.
pub open spec fn matmul_step(st: MatState, r: RenderedView, range: TextRange) -> MatState {
    let oi = match r.indices {
        Some(i) => i,
        None => seq![],
    };
    if st.latex.len() == 0 {
        MatState {
            latex: st.latex + r.latex,
            diagnostics: st.diagnostics + r.diagnostics,
            free: Some(oi),
        }
    } else {
        let cur = match st.free {
            Some(f) => f,
            None => seq![],
        };
        if cur.len() > 0 && oi.len() > 0 {
            if cur.last() == oi[0] {
                MatState {
                    latex: st.latex + r.latex,
                    diagnostics: st.diagnostics + r.diagnostics,
                    free: Some(cur.drop_last() + oi.skip(1)),
                }
            } else {
                MatState {
                    latex: st.latex + r.latex,
                    diagnostics: st.diagnostics + seq![contraction_diag(cur.last(), oi[0], range)]
                        + r.diagnostics,
                    free: Some(cur + oi),
                }
            }
        } else {
            MatState {
                latex: st.latex + r.latex,
                diagnostics: st.diagnostics + r.diagnostics,
                free: Some(cur + oi),
            }
        }
    }
}

pub open spec fn unsupported_expr_diag(t: Seq<char>, range: TextRange) -> DiagnosticView {
    DiagnosticView {
        code: "mathdocs::unsupported"@,
        message: "unsupported expression: "@ + t,
        range,
        severity: DiagnosticSeverity::Warning,
    }
}

/// The rendering of an expression in a context.
pub open spec fn render_spec(e: ExprView, m: MetadataView, o: RenderOptions, c: ContextView, range: TextRange) -> RenderedView
    decreases e, 0int,
{
    match e {
        ExprView::Name(n) => render_name(n, m, o, c),
        ExprView::Literal(v) => leaf(escape_literal(v)),
        ExprView::StringLiteral(v) => leaf("\\text{"@ + escape_text(v) + "}"@),
        ExprView::Unary { op, expr } => {
            let inner = render_spec(*expr, m, o, c, range);
            RenderedView {
                latex: (if op is Plus {
                    seq!['+']
                } else {
                    seq!['-']
                }) + group_below(inner.latex, inner.precedence, 7),
                precedence: 7,
                indices: inner.indices,
                tensor_notation: inner.tensor_notation,
                diagnostics: inner.diagnostics,
            }
        },
        ExprView::Binary { op, left, right } => {
            if op is MatMul {
                let st0 = MatState { latex: seq![], diagnostics: seq![], free: None };
                let st = matmul_fold(*right, m, o, range, matmul_fold(*left, m, o, range, st0));
                RenderedView {
                    latex: st.latex,
                    precedence: 5,
                    indices: st.free,
                    tensor_notation: true,
                    diagnostics: st.diagnostics,
                }
            } else if op is Add || op is Sub {
                let il = render_spec(*left, m, o, plain_ctx(), range);
                let ir = render_spec(*right, m, o, plain_ctx(), range);
                let expected = if il.tensor_notation {
                    il.indices
                } else if ir.tensor_notation {
                    ir.indices
                } else {
                    None
                };
                let child = ContextView { expected, force_tensor: false, suppress: false };
                let l = render_spec(*left, m, o, child, range);
                let r = render_spec(*right, m, o, child, range);
                RenderedView {
                    latex: group_below(l.latex, l.precedence, 3) + (if op is Add {
                        " + "@
                    } else {
                        " - "@
                    }) + group_below(r.latex, r.precedence, 4),
                    precedence: 3,
                    indices: expected,
                    tensor_notation: expected is Some,
                    diagnostics: l.diagnostics + r.diagnostics,
                }
            } else if op is Div {
                let l = fraction_part(*left, m, o, range);
                let r = fraction_part(*right, m, o, range);
                RenderedView {
                    latex: "\\frac{"@ + l.latex + "}{"@ + r.latex + "}"@,
                    precedence: 100,
                    indices: None,
                    tensor_notation: false,
                    diagnostics: l.diagnostics + r.diagnostics,
                }
            } else {
                let l = render_spec(*left, m, o, plain_ctx(), range);
                let r = render_spec(*right, m, o, plain_ctx(), range);
                let diagnostics = l.diagnostics + r.diagnostics;
                if op is Pow {
                    RenderedView {
                        latex: group_below(l.latex, l.precedence, 8) + "^{"@ + r.latex + "}"@,
                        precedence: 8,
                        indices: l.indices,
                        tensor_notation: l.tensor_notation,
                        diagnostics,
                    }
                } else {
                    RenderedView {
                        latex: group_below(l.latex, l.precedence, 5) + group_below(
                            r.latex,
                            r.precedence,
                            6,
                        ),
                        precedence: 5,
                        indices: None,
                        tensor_notation: false,
                        diagnostics,
                    }
                }
            }
        },
        ExprView::Compare { op, left, right } => {
            let l = render_spec(*left, m, o, c, range);
            let r = render_spec(*right, m, o, c, range);
            RenderedView {
                latex: l.latex + " = "@ + r.latex,
                precedence: 1,
                indices: None,
                tensor_notation: false,
                diagnostics: l.diagnostics + r.diagnostics,
            }
        },
        ExprView::Call { func, args } => call_result(*func, render_args(args, m, o, range), m, range),
        ExprView::Attribute { value, attr } => {
            let v = render_spec(*value, m, o, c, range);
            RenderedView {
                latex: operatorname(attr),
                precedence: 100,
                indices: v.indices,
                tensor_notation: v.tensor_notation,
                diagnostics: v.diagnostics,
            }
        },
        ExprView::Subscript { value, indices } => {
            let base = render_spec(
                *value,
                m,
                o,
                ContextView { expected: None, force_tensor: false, suppress: true },
                range,
            );
            subscript_result(base, render_indices(indices, m, o, range), m)
        },
        ExprView::Group(inner) => {
            let i = render_spec(*inner, m, o, c, range);
            RenderedView {
                latex: "\\left("@ + i.latex + "\\right)"@,
                precedence: 100,
                indices: i.indices,
                tensor_notation: i.tensor_notation,
                diagnostics: i.diagnostics,
            }
        },
        ExprView::Unsupported(t) => RenderedView {
            latex: "\\text{"@ + escape_text(t) + "}"@,
            precedence: 100,
            indices: None,
            tensor_notation: false,
            diagnostics: seq![unsupported_expr_diag(t, range)],
        },
    }
}

/// A numerator or denominator: the bar of the fraction groups it, so parentheses written
/// around it are dropped.
pub open spec fn fraction_part(e: ExprView, m: MetadataView, o: RenderOptions, range: TextRange) -> RenderedView
    decreases e, 1int,
{
    match e {
        ExprView::Group(inner) => render_spec(*inner, m, o, plain_ctx(), range),
        _ => render_spec(e, m, o, plain_ctx(), range),
    }
}

/// The operands of a `@` chain folded left to right into `st`.
pub open spec fn matmul_fold(e: ExprView, m: MetadataView, o: RenderOptions, range: TextRange, st: MatState) -> MatState
    decreases e, 1int,
{
    match e {
        ExprView::Binary { op, left, right } => if op is MatMul {
            matmul_fold(*right, m, o, range, matmul_fold(*left, m, o, range, st))
        } else {
            matmul_step(st, render_spec(e, m, o, force_ctx(), range), range)
        },
        _ => matmul_step(st, render_spec(e, m, o, force_ctx(), range), range),
    }
}

/// The call arguments, each rendered on its own.
pub open spec fn render_args(args: Seq<ExprView>, m: MetadataView, o: RenderOptions, range: TextRange) -> Seq<RenderedView>
    decreases args, 1int,
{
    if args.len() == 0 {
        seq![]
    } else {
        proof {
            assert(decreases_to!(args => args[args.len() - 1]));
            assert(decreases_to!(args => args.subrange(0, args.len() - 1)));
        }
        render_args(args.subrange(0, args.len() - 1), m, o, range).push(
            render_spec(args[args.len() - 1], m, o, plain_ctx(), range),
        )
    }
}

/// One subscript index: a name through the metadata or as an index piece, a literal as it
/// is, anything else rendered as an expression.
pub open spec fn render_index(e: ExprView, m: MetadataView, o: RenderOptions, range: TextRange) -> RenderedView
    decreases e, 1int,
{
    match e {
        ExprView::Name(n) => leaf(
            if m.symbols.contains_key(n) {
                m.symbols[n].latex
            } else {
                index_piece(n, o)
            },
        ),
        ExprView::Literal(v) => leaf(v),
        _ => render_spec(e, m, o, plain_ctx(), range),
    }
}

pub open spec fn render_indices(idx: Seq<ExprView>, m: MetadataView, o: RenderOptions, range: TextRange) -> Seq<RenderedView>
    decreases idx, 2int,
{
    if idx.len() == 0 {
        seq![]
    } else {
        proof {
            assert(decreases_to!(idx => idx[idx.len() - 1]));
            assert(decreases_to!(idx => idx.subrange(0, idx.len() - 1)));
        }
        render_indices(idx.subrange(0, idx.len() - 1), m, o, range).push(
            render_index(idx[idx.len() - 1], m, o, range),
        )
    }
}


pub open spec fn opt_pieces(o: Option<Vec<Vec<char>>>) -> Option<Seq<Seq<char>>> {
    match o {
        Some(v) => Some(crate::metadata::pieces_view(v@)),
        None => None,
    }
}

struct Rendered {
    latex: Vec<char>,
    precedence: u8,
    indices: Option<Vec<Vec<char>>>,
    tensor_notation: bool,
    diagnostics: Vec<Diagnostic>,
}

impl View for Rendered {
    type V = RenderedView;

    closed spec fn view(&self) -> RenderedView {
        RenderedView {
            latex: self.latex@,
            precedence: self.precedence,
            indices: opt_pieces(self.indices),
            tensor_notation: self.tensor_notation,
            diagnostics: diags_view(self.diagnostics@),
        }
    }
}

struct Context {
    expected: Option<Vec<Vec<char>>>,
    force_tensor: bool,
    suppress: bool,
}

impl View for Context {
    type V = ContextView;

    closed spec fn view(&self) -> ContextView {
        ContextView {
            expected: opt_pieces(self.expected),
            force_tensor: self.force_tensor,
            suppress: self.suppress,
        }
    }
}

fn plain_context() -> (c: Context)
    ensures
        c@ == plain_ctx(),
{
    Context { expected: None, force_tensor: false, suppress: false }
}

fn leaf_exec(latex: Vec<char>) -> (r: Rendered)
    ensures
        r@ == leaf(latex@),
{
    let r = Rendered {
        latex,
        precedence: 100,
        indices: None,
        tensor_notation: false,
        diagnostics: Vec::new(),
    };
    assert(diags_view(r.diagnostics@) =~= Seq::<DiagnosticView>::empty());
    r
}

pub(crate) fn copy_pieces(v: &Vec<Vec<char>>) -> (r: Vec<Vec<char>>)
    ensures
        crate::metadata::pieces_view(r@) == crate::metadata::pieces_view(v@),
{
    let mut r: Vec<Vec<char>> = Vec::new();
    for k in 0..v.len()
        invariant
            r@.len() == k,
            forall|j: int| 0 <= j < k ==> #[trigger] r@[j]@ == v@[j]@,
    {
        r.push(subvec(&v[k], 0, v[k].len()));
    }
    assert(crate::metadata::pieces_view(r@) =~= crate::metadata::pieces_view(v@));
    r
}

fn copy_opt_pieces(o: &Option<Vec<Vec<char>>>) -> (r: Option<Vec<Vec<char>>>)
    ensures
        opt_pieces(r) == opt_pieces(*o),
{
    match o {
        Some(v) => Some(copy_pieces(v)),
        None => None,
    }
}

/// Appends copies of `src@.skip(from)` to `dst`.
fn extend_pieces(dst: &mut Vec<Vec<char>>, src: &Vec<Vec<char>>, from: usize)
    requires
        from <= src@.len(),
    ensures
        crate::metadata::pieces_view(final(dst)@) == crate::metadata::pieces_view(old(dst)@)
            + crate::metadata::pieces_view(src@).skip(from as int),
{
    let ghost start = dst@;
    let mut k = from;
    while k < src.len()
        invariant
            from <= k <= src@.len(),
            dst@.len() == start.len() + (k - from),
            forall|j: int| 0 <= j < start.len() ==> #[trigger] dst@[j] == start[j],
            forall|j: int| start.len() <= j < dst@.len() ==> #[trigger] dst@[j]@ == src@[j - start.len() + from]@,
        decreases src@.len() - k,
    {
        dst.push(subvec(&src[k], 0, src[k].len()));
        k = k + 1;
    }
    assert(crate::metadata::pieces_view(dst@) =~= crate::metadata::pieces_view(start)
        + crate::metadata::pieces_view(src@).skip(from as int));
}

fn append_diags(out: &mut Vec<Diagnostic>, more: Vec<Diagnostic>)
    ensures
        diags_view(final(out)@) == diags_view(old(out)@) + diags_view(more@),
{
    let ghost a = out@;
    let ghost b = more@;
    let mut more = more;
    out.append(&mut more);
    assert(diags_view(out@) =~= diags_view(a) + diags_view(b));
}

fn index_names(t: &crate::metadata::TensorMeta) -> (r: Vec<Vec<char>>)
    ensures
        crate::metadata::pieces_view(r@) == t@.indices.map_values(
            |i: crate::metadata::IndexMetaView| i.name,
        ),
{
    let mut r: Vec<Vec<char>> = Vec::new();
    for k in 0..t.indices.len()
        invariant
            r@.len() == k,
            forall|j: int| 0 <= j < k ==> #[trigger] r@[j]@ == t.indices@[j].name@,
    {
        r.push(chars_of(t.indices[k].name.as_str()));
    }
    assert(crate::metadata::pieces_view(r@) =~= t@.indices.map_values(
        |i: crate::metadata::IndexMetaView| i.name,
    ));
    r
}

fn render_name_exec(name: &[char], m: &MetadataIndex, o: RenderOptions, c: &Context) -> (r: Rendered)
    ensures
        r@ == render_name(name@, m@, o, c@),
{
    let empty: Vec<Vec<char>> = Vec::new();
    assert(crate::metadata::pieces_view(empty@) =~= Seq::<Seq<char>>::empty());
    match m.symbol_by_chars(name) {
        Some(meta) => {
            let indices: Option<Vec<Vec<char>>> = match &meta.tensor {
                Some(t) => Some(index_names(t)),
                None => None,
            };
            let base = chars_of(meta.latex.as_str());
            let tensor = meta.tensor.is_some() && !c.suppress && (c.force_tensor
                || c.expected.is_some());
            let latex = if tensor {
                match &c.expected {
                    Some(e) => tensor_latex_chars(&base, e, m),
                    None => match &indices {
                        Some(i) => tensor_latex_chars(&base, i, m),
                        None => tensor_latex_chars(&base, &empty, m),
                    },
                }
            } else {
                base
            };
            let r = Rendered {
                latex,
                precedence: 100,
                indices,
                tensor_notation: tensor,
                diagnostics: Vec::new(),
            };
            assert(diags_view(r.diagnostics@) =~= Seq::<DiagnosticView>::empty());
            r
        },
        None => {
            let tensor = c.expected.is_some() && !c.suppress;
            let latex = if tensor {
                let (base, prime) = strip_prime_chars(name);
                let mut b = identifier_base_chars(&base, o);
                push_all(&mut b, &prime);
                match &c.expected {
                    Some(e) => tensor_latex_chars(&b, e, m),
                    None => b,
                }
            } else {
                identifier_chars(name, o)
            };
            let r = Rendered {
                latex,
                precedence: 100,
                indices: None,
                tensor_notation: tensor,
                diagnostics: Vec::new(),
            };
            assert(diags_view(r.diagnostics@) =~= Seq::<DiagnosticView>::empty());
            r
        },
    }
}


fn last_segment_chars(n: &[char]) -> (r: Vec<char>)
    ensures
        r@ == last_segment(n@),
{
    let dot = ['.'];
    let len = n.len();
    assert(dot@ == seq!['.']);
    match crate::text::rfind_chars(n, &dot) {
        Some(k) => {
            proof {
                crate::text::lemma_rfind_occurs(n@, dot@, n@.len() as int + 1);
                assert(crate::text::rfind(n@, dot@) == crate::text::rfind_below(
                    n@,
                    dot@,
                    n@.len() as int + 1,
                ));
            }
            subvec(n, k + 1, len)
        },
        None => subvec(n, 0, n.len()),
    }
}

spec fn rviews(v: Seq<Rendered>) -> Seq<RenderedView> {
    v.map_values(|r: Rendered| r@)
}

struct MatAcc {
    latex: Vec<char>,
    diagnostics: Vec<Diagnostic>,
    free: Option<Vec<Vec<char>>>,
}

impl View for MatAcc {
    type V = MatState;

    closed spec fn view(&self) -> MatState {
        MatState {
            latex: self.latex@,
            diagnostics: diags_view(self.diagnostics@),
            free: opt_pieces(self.free),
        }
    }
}

fn contraction_diagnostic(a: &[char], b: &[char], range: TextRange) -> (d: Diagnostic)
    ensures
        d@ == contraction_diag(a@, b@, range),
{
    let mut m = chars_of("cannot infer contraction for indices ending in ");
    push_all(&mut m, a);
    push_str(&mut m, " and starting with ");
    push_all(&mut m, b);
    Diagnostic::make("mathdocs::tensor-index", m, range, DiagnosticSeverity::Warning)
}

fn matmul_step_exec(st: MatAcc, r: Rendered, range: TextRange) -> (out: MatAcc)
    ensures
        out@ == matmul_step(st@, r@, range),
{
    let ghost sv = st@;
    let ghost rv = r@;
    let MatAcc { latex: mut acc, diagnostics: mut diags, free } = st;
    let Rendered { latex, precedence: _, indices, tensor_notation: _, diagnostics } = r;
    let oi: Vec<Vec<char>> = match indices {
        Some(i) => i,
        None => Vec::new(),
    };
    assert(crate::metadata::pieces_view(oi@) == (match rv.indices {
        Some(i) => i,
        None => Seq::<Seq<char>>::empty(),
    })) by {
        if rv.indices is None {
            assert(crate::metadata::pieces_view(oi@) =~= Seq::<Seq<char>>::empty());
        }
    }
    if acc.len() == 0 {
        push_all(&mut acc, &latex);
        append_diags(&mut diags, diagnostics);
        return MatAcc { latex: acc, diagnostics: diags, free: Some(oi) };
    }
    push_all(&mut acc, &latex);
    let mut cur: Vec<Vec<char>> = match free {
        Some(f) => f,
        None => Vec::new(),
    };
    assert(crate::metadata::pieces_view(cur@) == (match sv.free {
        Some(f) => f,
        None => Seq::<Seq<char>>::empty(),
    })) by {
        if sv.free is None {
            assert(crate::metadata::pieces_view(cur@) =~= Seq::<Seq<char>>::empty());
        }
    }
    let ghost cv = crate::metadata::pieces_view(cur@);
    let ghost ov = crate::metadata::pieces_view(oi@);
    if cur.len() > 0 && oi.len() > 0 {
        let n = cur.len();
        if crate::text::seq_eq(&cur[n - 1], &oi[0]) {
            cur.pop();
            assert(crate::metadata::pieces_view(cur@) =~= cv.drop_last());
            extend_pieces(&mut cur, &oi, 1);
        } else {
            let d = contraction_diagnostic(&cur[n - 1], &oi[0], range);
            let ghost before = diags_view(diags@);
            diags.push(d);
            assert(diags_view(diags@) =~= before + seq![d@]);
            extend_pieces(&mut cur, &oi, 0);
            assert(ov.skip(0) =~= ov);
        }
    } else {
        extend_pieces(&mut cur, &oi, 0);
        assert(ov.skip(0) =~= ov);
    }
    append_diags(&mut diags, diagnostics);
    MatAcc { latex: acc, diagnostics: diags, free: Some(cur) }
}

fn render_exec(e: &Expr, m: &MetadataIndex, o: RenderOptions, c: &Context, range: TextRange) -> (r: Rendered)
    ensures
        r@ == render_spec(e@, m@, o, c@, range),
    decreases e, 1int,
{
    match e {
        Expr::Name(n) => {
            let name = chars_of(n.as_str());
            render_name_exec(&name, m, o, c)
        },
        Expr::Literal(v) => {
            let text = chars_of(v.as_str());
            leaf_exec(escape_literal_chars(&text))
        },
        Expr::StringLiteral(v) => {
            let text = chars_of(v.as_str());
            let mut latex = chars_of("\\text{");
            let esc = escape_text_chars(&text);
            push_all(&mut latex, &esc);
            push_str(&mut latex, "}");
            leaf_exec(latex)
        },
        Expr::Unary { op, expr } => {
            let inner = render_exec(expr, m, o, c, range);
            let mut latex: Vec<char> = Vec::new();
            match op {
                UnaryOp::Plus => latex.push('+'),
                UnaryOp::Minus => latex.push('-'),
            }
            let g = group_below_chars(&inner.latex, inner.precedence, 7);
            push_all(&mut latex, &g);
            let Rendered { latex: _, precedence: _, indices, tensor_notation, diagnostics } = inner;
            Rendered { latex, precedence: 7, indices, tensor_notation, diagnostics }
        },
        Expr::Binary { op, left, right } => {
            match op {
                BinaryOp::MatMul => {
                    let st0 = MatAcc { latex: Vec::new(), diagnostics: Vec::new(), free: None };
                    assert(st0@ == (MatState { latex: seq![], diagnostics: seq![], free: None })) by {
                        assert(diags_view(st0.diagnostics@) =~= Seq::<DiagnosticView>::empty());
                    }
                    let st1 = matmul_fold_exec(left, m, o, range, st0);
                    let st2 = matmul_fold_exec(right, m, o, range, st1);
                    let MatAcc { latex, diagnostics, free } = st2;
                    Rendered { latex, precedence: 5, indices: free, tensor_notation: true, diagnostics }
                },
                BinaryOp::Add | BinaryOp::Sub => render_additive_exec(e, m, o, range),
                _ => render_product_exec(e, m, o, range),
            }
        },
        Expr::Compare { op: _, left, right } => {
            let l = render_exec(left, m, o, c, range);
            let r = render_exec(right, m, o, c, range);
            let mut latex = l.latex;
            push_str(&mut latex, " = ");
            push_all(&mut latex, &r.latex);
            let mut diagnostics = l.diagnostics;
            append_diags(&mut diagnostics, r.diagnostics);
            Rendered { latex, precedence: 1, indices: None, tensor_notation: false, diagnostics }
        },
        Expr::Call { func, args } => {
            proof {
                assert(decreases_to!(args => args@));
            }
            let rendered = render_args_exec(args, m, o, range);
            call_result_exec(func, rendered, m, range)
        },
        Expr::Attribute { value, attr } => {
            let v = render_exec(value, m, o, c, range);
            let a = chars_of(attr.as_str());
            let latex = operatorname_chars(&a);
            let Rendered { latex: _, precedence: _, indices, tensor_notation, diagnostics } = v;
            Rendered { latex, precedence: 100, indices, tensor_notation, diagnostics }
        },
        Expr::Subscript { value, indices } => {
            let bctx = Context { expected: None, force_tensor: false, suppress: true };
            let base = render_exec(value, m, o, &bctx, range);
            proof {
                assert(decreases_to!(indices => indices@));
            }
            let ri = render_indices_exec(indices, m, o, range);
            subscript_result_exec(base, ri, m)
        },
        Expr::Group(inner) => {
            let i = render_exec(inner, m, o, c, range);
            let mut latex = chars_of("\\left(");
            push_all(&mut latex, &i.latex);
            push_str(&mut latex, "\\right)");
            let Rendered { latex: _, precedence: _, indices, tensor_notation, diagnostics } = i;
            Rendered { latex, precedence: 100, indices, tensor_notation, diagnostics }
        },
        Expr::Unsupported(t) => {
            let text = chars_of(t.as_str());
            let mut latex = chars_of("\\text{");
            let esc = escape_text_chars(&text);
            push_all(&mut latex, &esc);
            push_str(&mut latex, "}");
            let mut message = chars_of("unsupported expression: ");
            push_all(&mut message, &text);
            let d = Diagnostic::make("mathdocs::unsupported", message, range, DiagnosticSeverity::Warning);
            let mut diagnostics: Vec<Diagnostic> = Vec::new();
            diagnostics.push(d);
            assert(diags_view(diagnostics@) =~= seq![d@]);
            Rendered { latex, precedence: 100, indices: None, tensor_notation: false, diagnostics }
        },
    }
}


/// `a + b` and `a - b`: rendered once on their own to find index notation, then again with
/// the indices of the first tensor side expected on both; the diagnostics are those of the
/// second rendering, so each is reported once.
fn render_additive_exec(e: &Expr, m: &MetadataIndex, o: RenderOptions, range: TextRange) -> (r: Rendered)
    requires
        e matches Expr::Binary { op, .. } && (op is Add || op is Sub),
    ensures
        forall|c: ContextView| r@ == #[trigger] render_spec(e@, m@, o, c, range),
    decreases e, 0int,
{
    match e {
        Expr::Binary { op, left, right } => {
            let plain = plain_context();
            let il = render_exec(left, m, o, &plain, range);
            let ir = render_exec(right, m, o, &plain, range);
            let expected = if il.tensor_notation {
                copy_opt_pieces(&il.indices)
            } else if ir.tensor_notation {
                copy_opt_pieces(&ir.indices)
            } else {
                None
            };
            let child = Context {
                expected: copy_opt_pieces(&expected),
                force_tensor: false,
                suppress: false,
            };
            let l = render_exec(left, m, o, &child, range);
            let r = render_exec(right, m, o, &child, range);
            let mut latex = group_below_chars(&l.latex, l.precedence, 3);
            match op {
                BinaryOp::Add => push_str(&mut latex, " + "),
                _ => push_str(&mut latex, " - "),
            }
            let g = group_below_chars(&r.latex, r.precedence, 4);
            push_all(&mut latex, &g);
            let mut diagnostics = l.diagnostics;
            append_diags(&mut diagnostics, r.diagnostics);
            let tensor_notation = expected.is_some();
            Rendered { latex, precedence: 3, indices: expected, tensor_notation, diagnostics }
        },
        _ => vstd::pervasive::unreached(),
    }
}

/// `a / b`, `a ** b` and `a * b`.
fn render_product_exec(e: &Expr, m: &MetadataIndex, o: RenderOptions, range: TextRange) -> (r: Rendered)
    requires
        e matches Expr::Binary { op, .. } && (op is Div || op is Pow || op is Mul),
    ensures
        forall|c: ContextView| r@ == #[trigger] render_spec(e@, m@, o, c, range),
    decreases e, 0int,
{
    match e {
        Expr::Binary { op, left, right } => {
            if let BinaryOp::Div = op {
                let l = fraction_part_exec(left, m, o, range);
                let r = fraction_part_exec(right, m, o, range);
                let mut latex = chars_of("\\frac{");
                push_all(&mut latex, &l.latex);
                push_str(&mut latex, "}{");
                push_all(&mut latex, &r.latex);
                push_str(&mut latex, "}");
                let mut diagnostics = l.diagnostics;
                append_diags(&mut diagnostics, r.diagnostics);
                return Rendered { latex, precedence: 100, indices: None, tensor_notation: false, diagnostics };
            }
            let plain = plain_context();
            let l = render_exec(left, m, o, &plain, range);
            let r = render_exec(right, m, o, &plain, range);
            match op {
                BinaryOp::Pow => {
                    let mut latex = group_below_chars(&l.latex, l.precedence, 8);
                    push_str(&mut latex, "^{");
                    push_all(&mut latex, &r.latex);
                    push_str(&mut latex, "}");
                    let Rendered { latex: _, precedence: _, indices, tensor_notation, diagnostics: ld } = l;
                    let mut diagnostics = ld;
                    append_diags(&mut diagnostics, r.diagnostics);
                    Rendered { latex, precedence: 8, indices, tensor_notation, diagnostics }
                },
                _ => {
                    let mut latex = group_below_chars(&l.latex, l.precedence, 5);
                    let g = group_below_chars(&r.latex, r.precedence, 6);
                    push_all(&mut latex, &g);
                    let mut diagnostics = l.diagnostics;
                    append_diags(&mut diagnostics, r.diagnostics);
                    Rendered { latex, precedence: 5, indices: None, tensor_notation: false, diagnostics }
                },
            }
        },
        _ => vstd::pervasive::unreached(),
    }
}

fn fraction_part_exec(e: &Expr, m: &MetadataIndex, o: RenderOptions, range: TextRange) -> (r: Rendered)
    ensures
        r@ == fraction_part(e@, m@, o, range),
    decreases e, 2int,
{
    let plain = plain_context();
    match e {
        Expr::Group(inner) => render_exec(inner, m, o, &plain, range),
        _ => render_exec(e, m, o, &plain, range),
    }
}

fn matmul_fold_exec(e: &Expr, m: &MetadataIndex, o: RenderOptions, range: TextRange, st: MatAcc) -> (r: MatAcc)
    ensures
        r@ == matmul_fold(e@, m@, o, range, st@),
    decreases e, 2int,
{
    match e {
        Expr::Binary { op: BinaryOp::MatMul, left, right } => {
            let s1 = matmul_fold_exec(left, m, o, range, st);
            matmul_fold_exec(right, m, o, range, s1)
        },
        _ => {
            let force = Context { expected: None, force_tensor: true, suppress: false };
            let r = render_exec(e, m, o, &force, range);
            matmul_step_exec(st, r, range)
        },
    }
}

fn render_args_exec(args: &Vec<Expr>, m: &MetadataIndex, o: RenderOptions, range: TextRange) -> (r: Vec<Rendered>)
    ensures
        rviews(r@) == render_args(crate::ir::exprs_view(args@), m@, o, range),
    decreases args@, 1int,
{
    let ghost ev = crate::ir::exprs_view(args@);
    proof {
        crate::ir::lemma_exprs_view(args@);
        assert(ev.take(0) =~= Seq::<ExprView>::empty());
    }
    let plain = plain_context();
    let mut out: Vec<Rendered> = Vec::new();
    let mut k: usize = 0;
    while k < args.len()
        invariant
            k <= args@.len(),
            ev == crate::ir::exprs_view(args@),
            ev.len() == args@.len(),
            forall|i: int| 0 <= i < args@.len() ==> #[trigger] ev[i] == args@[i]@,
            plain@ == plain_ctx(),
            rviews(out@) == render_args(ev.take(k as int), m@, o, range),
        decreases args@.len() - k,
    {
        proof {
            assert(decreases_to!(args@ => args@[k as int]));
        }
        let r = render_exec(&args[k], m, o, &plain, range);
        let ghost prev = rviews(out@);
        out.push(r);
        proof {
            assert(ev.take(k + 1).subrange(0, k as int) =~= ev.take(k as int));
            assert(ev.take(k + 1)[k as int] == args@[k as int]@);
            assert(rviews(out@) =~= prev.push(r@));
        }
        k = k + 1;
    }
    assert(ev.take(args@.len() as int) =~= ev);
    out
}

fn render_index_exec(e: &Expr, m: &MetadataIndex, o: RenderOptions, range: TextRange) -> (r: Rendered)
    ensures
        r@ == render_index(e@, m@, o, range),
    decreases e, 2int,
{
    match e {
        Expr::Name(n) => {
            let name = chars_of(n.as_str());
            let latex = match m.symbol_by_chars(&name) {
                Some(meta) => chars_of(meta.latex.as_str()),
                None => index_piece_chars(&name, o),
            };
            leaf_exec(latex)
        },
        Expr::Literal(v) => leaf_exec(chars_of(v.as_str())),
        _ => {
            let plain = plain_context();
            render_exec(e, m, o, &plain, range)
        },
    }
}

fn render_indices_exec(idx: &Vec<Expr>, m: &MetadataIndex, o: RenderOptions, range: TextRange) -> (r: Vec<Rendered>)
    ensures
        rviews(r@) == render_indices(crate::ir::exprs_view(idx@), m@, o, range),
    decreases idx@, 3int,
{
    let ghost ev = crate::ir::exprs_view(idx@);
    proof {
        crate::ir::lemma_exprs_view(idx@);
        assert(ev.take(0) =~= Seq::<ExprView>::empty());
    }
    let mut out: Vec<Rendered> = Vec::new();
    let mut k: usize = 0;
    while k < idx.len()
        invariant
            k <= idx@.len(),
            ev == crate::ir::exprs_view(idx@),
            ev.len() == idx@.len(),
            forall|i: int| 0 <= i < idx@.len() ==> #[trigger] ev[i] == idx@[i]@,
            rviews(out@) == render_indices(ev.take(k as int), m@, o, range),
        decreases idx@.len() - k,
    {
        proof {
            assert(decreases_to!(idx@ => idx@[k as int]));
        }
        let r = render_index_exec(&idx[k], m, o, range);
        let ghost prev = rviews(out@);
        out.push(r);
        proof {
            assert(ev.take(k + 1).subrange(0, k as int) =~= ev.take(k as int));
            assert(ev.take(k + 1)[k as int] == idx@[k as int]@);
            assert(rviews(out@) =~= prev.push(r@));
        }
        k = k + 1;
    }
    assert(ev.take(idx@.len() as int) =~= ev);
    out
}

/// The LaTeX and the diagnostics of rendered pieces, copied out in order.
fn collect_rendered(rs: &Vec<Rendered>) -> (r: (Vec<Vec<char>>, Vec<Diagnostic>))
    ensures
        crate::metadata::pieces_view(r.0@) == latexes(rviews(rs@)),
        diags_view(r.1@) == concat_diags(rviews(rs@)),
{
    let ghost rv = rviews(rs@);
    let mut lats: Vec<Vec<char>> = Vec::new();
    let mut diags: Vec<Diagnostic> = Vec::new();
    assert(diags_view(diags@) =~= concat_diags(rv.take(0)));
    for k in 0..rs.len()
        invariant
            rv == rviews(rs@),
            lats@.len() == k,
            forall|j: int| 0 <= j < k ==> #[trigger] lats@[j]@ == rv[j].latex,
            diags_view(diags@) == concat_diags(rv.take(k as int)),
    {
        lats.push(subvec(&rs[k].latex, 0, rs[k].latex.len()));
        crate::ast::extend_diagnostics(&mut diags, &rs[k].diagnostics);
        assert(rv.take(k + 1).drop_last() =~= rv.take(k as int));
    }
    assert(rv.take(rs@.len() as int) =~= rv);
    assert(crate::metadata::pieces_view(lats@) =~= latexes(rv));
    (lats, diags)
}

fn call_result_exec(func: &Expr, rendered: Vec<Rendered>, m: &MetadataIndex, range: TextRange) -> (r: Rendered)
    ensures
        r@ == call_result(func@, rviews(rendered@), m@, range),
{
    let q = qualified_chars(func);
    let short = match &q {
        Some(n) => last_segment_chars(n),
        None => chars_of("call"),
    };
    let (args, diags) = collect_rendered(&rendered);
    let meta = match &q {
        Some(n) => match m.function_by_chars(n) {
            Some(f) => Some(f),
            None => m.function_by_chars(&short),
        },
        None => m.function_by_chars(&short),
    };
    if let Some(f) = meta {
        if let Some(t) = &f.latex_template {
            let tc = chars_of(t.as_str());
            let (latex, td) = apply_template_chars(&tc, &args, range);
            let mut diagnostics = diags;
            append_diags(&mut diagnostics, td);
            let precedence = match f.precedence {
                Some(p) => p,
                None => 100,
            };
            return Rendered { latex, precedence, indices: None, tensor_notation: false, diagnostics };
        }
    }
    let mut latex = chars_of("\\operatorname{");
    let esc = escape_text_chars(&short);
    push_all(&mut latex, &esc);
    push_str(&mut latex, "}\\left(");
    let sep = chars_of(", ");
    let joined = crate::text::join_chars(&args, &sep);
    assert(args@.map_values(|p: Vec<char>| p@) =~= crate::metadata::pieces_view(args@));
    push_all(&mut latex, &joined);
    push_str(&mut latex, "\\right)");
    Rendered { latex, precedence: 100, indices: None, tensor_notation: false, diagnostics: diags }
}

fn strip_backslashes_chars(l: &[char]) -> (r: Vec<char>)
    ensures
        r@ == strip_backslashes(l@),
{
    let mut i: usize = 0;
    while i < l.len() && l[i] == '\\'
        invariant
            i <= l@.len(),
            lead_backslashes(l@, 0) == lead_backslashes(l@, i as int),
        decreases l@.len() - i,
    {
        i = i + 1;
    }
    subvec(l, i, l.len())
}

fn subscript_result_exec(base: Rendered, ri: Vec<Rendered>, m: &MetadataIndex) -> (r: Rendered)
    ensures
        r@ == subscript_result(base@, rviews(ri@), m@),
{
    let (lats, more) = collect_rendered(&ri);
    let ghost lv = crate::metadata::pieces_view(lats@);
    let latex = tensor_latex_chars(&base.latex, &lats, m);
    let mut stripped: Vec<Vec<char>> = Vec::new();
    for k in 0..lats.len()
        invariant
            lv == crate::metadata::pieces_view(lats@),
            stripped@.len() == k,
            forall|j: int| 0 <= j < k ==> #[trigger] stripped@[j]@ == strip_backslashes(lv[j]),
    {
        stripped.push(strip_backslashes_chars(&lats[k]));
    }
    assert(crate::metadata::pieces_view(stripped@) =~= lv.map_values(
        |l: Seq<char>| strip_backslashes(l),
    ));
    let mut diagnostics = base.diagnostics;
    append_diags(&mut diagnostics, more);
    Rendered { latex, precedence: 100, indices: Some(stripped), tensor_notation: true, diagnostics }
}


/// An assignment to a name that starts with `eq_` whose value is an equation is the
/// equation alone.
pub open spec fn is_named_equation(target: ExprView, value: ExprView) -> bool {
    (target matches ExprView::Name(n) && starts_with(n, "eq_"@)) && value is Compare
}

/// The LaTeX and the diagnostics of a statement. In an assignment the value is rendered
/// first; its free indices are then expected on the target.
pub open spec fn render_statement_spec(s: StatementView, m: MetadataView, o: RenderOptions, range: TextRange) -> (
    Seq<char>,
    Seq<DiagnosticView>,
) {
    match s {
        StatementView::Assignment { target, value } => {
            let rhs = render_spec(value, m, o, plain_ctx(), range);
            if is_named_equation(target, value) {
                (rhs.latex, rhs.diagnostics)
            } else {
                let ctx = ContextView {
                    expected: rhs.indices,
                    force_tensor: rhs.indices is Some,
                    suppress: false,
                };
                let lhs = render_spec(target, m, o, ctx, range);
                (lhs.latex + " = "@ + rhs.latex, rhs.diagnostics + lhs.diagnostics)
            }
        },
        StatementView::Expr(e) => {
            let r = render_spec(e, m, o, plain_ctx(), range);
            (r.latex, r.diagnostics)
        },
    }
}

fn is_named_equation_exec(target: &Expr, value: &Expr) -> (r: bool)
    ensures
        r == is_named_equation(target@, value@),
{
    let named = match target {
        Expr::Name(n) => {
            let c = chars_of(n.as_str());
            crate::text::starts_with_str(&c, "eq_")
        },
        _ => false,
    };
    named && matches!(value, Expr::Compare { .. })
}

/// Renders a lowered statement to LaTeX with the metadata and the options; diagnostics
/// carry `range`.
pub fn render_statement(statement: &Statement, metadata: &MetadataIndex, options: &RenderOptions, range: TextRange) -> (r: RenderedLatex)
    ensures
        (r.latex@, diags_view(r.diagnostics@)) == render_statement_spec(
            statement@,
            metadata@,
            *options,
            range,
        ),
{
    let o = *options;
    let plain = plain_context();
    match statement {
        Statement::Assignment { target, value } => {
            let rhs = render_exec(value, metadata, o, &plain, range);
            if is_named_equation_exec(target, value) {
                return RenderedLatex { latex: string_of(&rhs.latex), diagnostics: rhs.diagnostics };
            }
            let ctx = Context {
                expected: copy_opt_pieces(&rhs.indices),
                force_tensor: rhs.indices.is_some(),
                suppress: false,
            };
            let lhs = render_exec(target, metadata, o, &ctx, range);
            let mut latex = lhs.latex;
            push_str(&mut latex, " = ");
            push_all(&mut latex, &rhs.latex);
            let mut diagnostics = rhs.diagnostics;
            append_diags(&mut diagnostics, lhs.diagnostics);
            RenderedLatex { latex: string_of(&latex), diagnostics }
        },
        Statement::Expr(e) => {
            let r = render_exec(e, metadata, o, &plain, range);
            RenderedLatex { latex: string_of(&r.latex), diagnostics: r.diagnostics }
        },
    }
}

} // verus!
