//! Finding the renderable blocks of a Python source file: top-level docstrings
//! (Markdown), figure directives (images) and top-level assignments or equations
//! (math), steered by `# mathdocs:` comments.
use vstd::prelude::*;
use crate::text::{
    ascii_lower_seq, ascii_lower_chars, contains, contains_str, eq_str, find,
    find_char, find_chars, is_ascii_alphabetic, is_ascii_alphabetic_char, is_ascii_digit,
    is_ascii_digit_char, is_white_space, is_white_space_char, push_all, starts_with,
    starts_with_str, subvec, trim, trim_chars, trim_end, trim_end_chars,
};
use crate::ast::RenderConfig;

verus! {

/// The command of a line that is only a `# mathdocs:` comment, if it is not empty.
pub open spec fn standalone_command_spec(t: Seq<char>) -> Option<Seq<char>> {
    let p = "# mathdocs:"@;
    if starts_with(t, p) && trim(t.skip(p.len() as int)).len() > 0 {
        Some(trim(t.skip(p.len() as int)))
    } else {
        None
    }
}

fn standalone_mathdocs_command(trimmed: &[char]) -> (r: Option<Vec<char>>)
    ensures
        r matches Some(c) ==> standalone_command_spec(trimmed@) == Some(c@),
        r is None ==> standalone_command_spec(trimmed@) is None,
{
    let p = "# mathdocs:";
    if !starts_with_str(trimmed, p) {
        return None;
    }
    let plen = crate::text::chars_of(p).len();
    let rest = subvec(trimmed, plen, trimmed.len());
    let command = trim_chars(&rest);
    if command.len() == 0 {
        None
    } else {
        Some(command)
    }
}

/// Where a trailing comment starts. A quote character does not shield a `#` here: the scan
/// leaves a string as soon as it enters it, so the first `#` of the text starts the comment.
pub open spec fn comment_start_spec(t: Seq<char>) -> Option<int> {
    find(t, seq!['#'])
}

fn comment_start(text: &[char]) -> (r: Option<usize>)
    ensures
        r matches Some(i) ==> comment_start_spec(text@) == Some(i as int),
        r is None ==> comment_start_spec(text@) is None,
{
    find_char(text, '#')
}

/// `str::split_whitespace`: the maximal runs of characters that are not white space.
pub open spec fn split_ws(s: Seq<char>) -> Seq<Seq<char>>
    decreases s.len(),
{
    if s.len() == 0 {
        seq![]
    } else if is_white_space(s.last()) {
        split_ws(s.drop_last())
    } else if s.len() >= 2 && !is_white_space(s[s.len() - 2]) {
        let t = split_ws(s.drop_last());
        t.update(t.len() - 1, t.last().push(s.last()))
    } else {
        split_ws(s.drop_last()).push(seq![s.last()])
    }
}

pub proof fn lemma_split_ws_nonempty(s: Seq<char>)
    ensures
        s.len() >= 1 && !is_white_space(s.last()) ==> split_ws(s).len() >= 1,
    decreases s.len(),
{
    if s.len() >= 2 {
        lemma_split_ws_nonempty(s.drop_last());
        assert(s.drop_last().last() == s[s.len() - 2]);
    }
}

fn split_whitespace(s: &[char]) -> (toks: Vec<Vec<char>>)
    ensures
        toks@.len() == split_ws(s@).len(),
        forall|k: int| 0 <= k < toks@.len() ==> #[trigger] toks@[k]@ == split_ws(s@)[k],
{
    let mut toks: Vec<Vec<char>> = Vec::new();
    let mut cur: Vec<char> = Vec::new();
    for i in 0..s.len()
        invariant
            ({
                let t = split_ws(s@.take(i as int));
                if cur@.len() > 0 {
                    &&& toks@.len() + 1 == t.len()
                    &&& cur@ == t.last()
                    &&& forall|k: int| 0 <= k < toks@.len() ==> #[trigger] toks@[k]@ == t[k]
                } else {
                    &&& toks@.len() == t.len()
                    &&& forall|k: int| 0 <= k < toks@.len() ==> #[trigger] toks@[k]@ == t[k]
                }
            }),
            cur@.len() > 0 <==> (i > 0 && !is_white_space(s@[i - 1])),
    {
        let ghost pre = s@.take(i as int);
        assert(s@.take(i + 1).drop_last() == pre);
        if i > 0 {
            assert(pre.last() == s@[i - 1]);
            assert(s@.take(i + 1)[i - 1] == s@[i - 1]);
        }
        if is_white_space_char(s[i]) {
            if cur.len() > 0 {
                toks.push(cur);
                cur = Vec::new();
            }
        } else {
            cur.push(s[i]);
        }
    }
    assert(s@.take(s.len() as int) == s@);
    if cur.len() > 0 {
        toks.push(cur);
    }
    toks
}

/// What a `# mathdocs:` command switches on or off.
pub open spec fn config_target(item: Seq<char>) -> int {
    if item == "auto_name"@ {
        0
    } else if item == "auto_name/subscript"@ {
        1
    } else if item == "auto_name/symbol"@ {
        2
    } else {
        3
    }
}

/// The configuration and the pending `enable`/`disable` after a list of tokens.
pub open spec fn config_tokens(init: RenderConfig, toks: Seq<Seq<char>>) -> (RenderConfig, Option<bool>)
    decreases toks.len(),
{
    if toks.len() == 0 {
        (init, None)
    } else {
        let (c, cur) = config_tokens(init, toks.drop_last());
        let tok = toks.last();
        let (enabled, item) = match find(tok, seq!['=']) {
            Some(k) => {
                let op = tok.take(k);
                (if op == "enable"@ {
                    Some(true)
                } else if op == "disable"@ {
                    Some(false)
                } else {
                    None
                }, tok.skip(k + 1))
            },
            None => (cur, tok),
        };
        match enabled {
            None => (c, None),
            Some(e) => {
                let target = config_target(trim(item));
                (if target == 0 {
                    RenderConfig { auto_name_subscript: Some(e), auto_name_symbol: Some(e) }
                } else if target == 1 {
                    RenderConfig { auto_name_subscript: Some(e), ..c }
                } else if target == 2 {
                    RenderConfig { auto_name_symbol: Some(e), ..c }
                } else {
                    c
                }, Some(e))
            },
        }
    }
}

/// The configuration after applying a command such as
/// `disable=auto_name/subscript, auto_name/symbol`.
pub open spec fn apply_config_spec(init: RenderConfig, command: Seq<char>) -> RenderConfig {
    config_tokens(init, split_ws(crate::text::replace_char(command, ',', seq![' ']))).0
}

fn apply_mathdocs_config_command(config: &mut RenderConfig, command: &[char])
    ensures
        *final(config) == apply_config_spec(*old(config), command@),
{
    let space = [' '];
    assert(space@ == seq![' ']);
    let normalized = crate::text::replace_char_chars(command, ',', &space);
    let toks = split_whitespace(&normalized);
    let ghost all = split_ws(normalized@);
    let ghost init = *config;
    let mut current: Option<bool> = None;
    for i in 0..toks.len()
        invariant
            toks@.len() == all.len(),
            forall|k: int| 0 <= k < toks@.len() ==> #[trigger] toks@[k]@ == all[k],
            (*config, current) == config_tokens(init, all.take(i as int)),
    {
        let tok = &toks[i];
        let tlen = tok.len();
        assert(all.take(i + 1).drop_last() == all.take(i as int));
        assert(all.take(i + 1).last() == tok@);
        let item: Vec<char> = match find_char(tok, '=') {
            Some(k) => {
                assert(k < tlen);
                let op = subvec(tok, 0, k);
                current = if eq_str(&op, "enable") {
                    Some(true)
                } else if eq_str(&op, "disable") {
                    Some(false)
                } else {
                    None
                };
                subvec(tok, k + 1, tok.len())
            },
            None => subvec(tok, 0, tok.len()),
        };
        assert(tok@.take(tok@.len() as int) == tok@);
        match current {
            None => {},
            Some(enabled) => {
                let it = trim_chars(&item);
                if eq_str(&it, "auto_name") {
                    config.auto_name_subscript = Some(enabled);
                    config.auto_name_symbol = Some(enabled);
                } else if eq_str(&it, "auto_name/subscript") {
                    config.auto_name_subscript = Some(enabled);
                } else if eq_str(&it, "auto_name/symbol") {
                    config.auto_name_symbol = Some(enabled);
                }
            },
        }
    }
    assert(all.take(toks@.len() as int) == all);
}

/// A statement line split from its trailing `# mathdocs:` command, with that command applied.
pub open spec fn split_inline_spec(t: Seq<char>, config: RenderConfig) -> (Seq<char>, RenderConfig) {
    match comment_start_spec(t) {
        None => (t, config),
        Some(c) => {
            let directive = trim(t.skip(c + 1));
            let p = "mathdocs:"@;
            if starts_with(directive, p) {
                (
                    trim_end(t.take(c)),
                    apply_config_spec(config, trim(directive.skip(p.len() as int))),
                )
            } else {
                (t, config)
            }
        },
    }
}

fn split_inline_mathdocs_command(trimmed: &[char], config: RenderConfig) -> (r: (
    Vec<char>,
    RenderConfig,
))
    ensures
        (r.0@, r.1) == split_inline_spec(trimmed@, config),
{
    let comment = match comment_start(trimmed) {
        None => return (subvec(trimmed, 0, trimmed.len()), config),
        Some(c) => c,
    };
    proof {
        assert(trimmed@.subrange(0, trimmed@.len() as int) == trimmed@);
        assert(find(trimmed@, seq!['#']) == Some(comment as int));
        crate::text::lemma_find_in_bounds(trimmed@, seq!['#'], 0);
    }
    let tlen = trimmed.len();
    assert(comment < tlen);
    let after = subvec(trimmed, comment + 1, tlen);
    let directive = trim_chars(&after);
    let p = "mathdocs:";
    if !starts_with_str(&directive, p) {
        assert(trimmed@.subrange(0, trimmed@.len() as int) == trimmed@);
        return (subvec(trimmed, 0, trimmed.len()), config);
    }
    let plen = crate::text::chars_of(p).len();
    let rest = subvec(&directive, plen, directive.len());
    let command = trim_chars(&rest);
    let mut config = config;
    apply_mathdocs_config_command(&mut config, &command);
    let head = subvec(trimmed, 0, comment);
    (trim_end_chars(&head), config)
}

/// The number of leading spaces and tabs.
pub open spec fn indentation_from(s: Seq<char>, i: int) -> int
    decreases s.len() - i,
{
    if 0 <= i < s.len() && (s[i] == ' ' || s[i] == '\t') {
        indentation_from(s, i + 1)
    } else {
        i
    }
}

pub open spec fn indentation_spec(s: Seq<char>) -> int {
    indentation_from(s, 0)
}

fn indentation(line: &[char]) -> (n: usize)
    ensures
        n == indentation_spec(line@),
        n <= line@.len(),
{
    let mut i: usize = 0;
    while i < line.len() && (line[i] == ' ' || line[i] == '\t')
        invariant
            i <= line@.len(),
            indentation_from(line@, 0) == indentation_from(line@, i as int),
        decreases line.len() - i,
    {
        i = i + 1;
    }
    i
}

/// The string prefix length and the quote character of a line that opens a triple-quoted string.
pub open spec fn triple_string_start_spec(t: Seq<char>) -> Option<(int, char)> {
    let lower = ascii_lower_seq(t);
    let tq = seq!['"', '"', '"'];
    let ts = seq!['\'', '\'', '\''];
    if starts_with(lower, tq) {
        Some((0, '"'))
    } else if starts_with(lower, ts) {
        Some((0, '\''))
    } else if starts_with(lower, seq!['r'] + tq) {
        Some((1, '"'))
    } else if starts_with(lower, seq!['r'] + ts) {
        Some((1, '\''))
    } else if starts_with(lower, seq!['u'] + tq) {
        Some((1, '"'))
    } else if starts_with(lower, seq!['u'] + ts) {
        Some((1, '\''))
    } else if starts_with(lower, seq!['b'] + tq) {
        Some((1, '"'))
    } else if starts_with(lower, seq!['b'] + ts) {
        Some((1, '\''))
    } else if starts_with(lower, seq!['f'] + tq) {
        Some((1, '"'))
    } else if starts_with(lower, seq!['f'] + ts) {
        Some((1, '\''))
    } else if starts_with(lower, seq!['f', 'r'] + tq) {
        Some((2, '"'))
    } else if starts_with(lower, seq!['f', 'r'] + ts) {
        Some((2, '\''))
    } else if starts_with(lower, seq!['r', 'f'] + tq) {
        Some((2, '"'))
    } else if starts_with(lower, seq!['r', 'f'] + ts) {
        Some((2, '\''))
    } else {
        None
    }
}

/// The pattern of a prefix followed by three quote characters.
fn opener(prefix: &[char], q: char) -> (v: Vec<char>)
    ensures
        v@ == prefix@ + seq![q, q, q],
{
    let mut v: Vec<char> = Vec::new();
    push_all(&mut v, prefix);
    v.push(q);
    v.push(q);
    v.push(q);
    v
}

fn triple_string_start(trimmed: &[char]) -> (r: Option<(usize, char)>)
    ensures
        r matches Some((n, q)) ==> triple_string_start_spec(trimmed@) == Some((n as int, q)),
        r is None ==> triple_string_start_spec(trimmed@) is None,
{
    let lower = ascii_lower_chars(trimmed);
    let e: Vec<char> = Vec::new();
    let r: Vec<char> = vec!['r'];
    let u: Vec<char> = vec!['u'];
    let b: Vec<char> = vec!['b'];
    let f: Vec<char> = vec!['f'];
    let fr: Vec<char> = vec!['f', 'r'];
    let rf: Vec<char> = vec!['r', 'f'];
    assert(e@ + seq!['"', '"', '"'] == seq!['"', '"', '"']);
    assert(e@ + seq!['\'', '\'', '\''] == seq!['\'', '\'', '\'']);
    assert(r@ == seq!['r']);
    assert(u@ == seq!['u']);
    assert(b@ == seq!['b']);
    assert(f@ == seq!['f']);
    assert(fr@ == seq!['f', 'r']);
    assert(rf@ == seq!['r', 'f']);
    if crate::text::starts_with_chars(&lower, &opener(&e, '"')) {
        return Some((0, '"'));
    }
    if crate::text::starts_with_chars(&lower, &opener(&e, '\'')) {
        return Some((0, '\''));
    }
    if crate::text::starts_with_chars(&lower, &opener(&r, '"')) {
        return Some((1, '"'));
    }
    if crate::text::starts_with_chars(&lower, &opener(&r, '\'')) {
        return Some((1, '\''));
    }
    if crate::text::starts_with_chars(&lower, &opener(&u, '"')) {
        return Some((1, '"'));
    }
    if crate::text::starts_with_chars(&lower, &opener(&u, '\'')) {
        return Some((1, '\''));
    }
    if crate::text::starts_with_chars(&lower, &opener(&b, '"')) {
        return Some((1, '"'));
    }
    if crate::text::starts_with_chars(&lower, &opener(&b, '\'')) {
        return Some((1, '\''));
    }
    if crate::text::starts_with_chars(&lower, &opener(&f, '"')) {
        return Some((1, '"'));
    }
    if crate::text::starts_with_chars(&lower, &opener(&f, '\'')) {
        return Some((1, '\''));
    }
    if crate::text::starts_with_chars(&lower, &opener(&fr, '"')) {
        return Some((2, '"'));
    }
    if crate::text::starts_with_chars(&lower, &opener(&fr, '\'')) {
        return Some((2, '\''));
    }
    if crate::text::starts_with_chars(&lower, &opener(&rf, '"')) {
        return Some((2, '"'));
    }
    if crate::text::starts_with_chars(&lower, &opener(&rf, '\'')) {
        return Some((2, '\''));
    }
    None
}


/// First index at or after `i` that does not hold `c`.
pub open spec fn lead_char_from(s: Seq<char>, c: char, i: int) -> int
    decreases s.len() - i,
{
    if 0 <= i < s.len() && s[i] == c {
        lead_char_from(s, c, i + 1)
    } else {
        i
    }
}

/// The end of `s.take(j)` once trailing `c` characters are dropped.
pub open spec fn trail_char_from(s: Seq<char>, c: char, j: int) -> int
    decreases j,
{
    if 0 < j <= s.len() && s[j - 1] == c {
        trail_char_from(s, c, j - 1)
    } else {
        j
    }
}

/// `str::trim_matches('\n')`.
pub open spec fn trim_newlines(s: Seq<char>) -> Seq<char> {
    let t = s.skip(lead_char_from(s, '\n', 0));
    t.take(trail_char_from(t, '\n', t.len() as int))
}

/// A line as `str::lines` yields it when it ended with `'\n'`: without a final `'\r'`.
pub open spec fn strip_cr(p: Seq<char>) -> Seq<char> {
    if p.len() > 0 && p.last() == '\r' {
        p.drop_last()
    } else {
        p
    }
}

/// `str::lines`: pieces between `'\n'`, a final `'\r'` removed from each terminated piece,
/// and no empty piece after a final `'\n'`.
pub open spec fn lines(s: Seq<char>) -> Seq<Seq<char>> {
    let parts = crate::text::split_char(s, '\n');
    let terminated = parts.take(parts.len() - 1).map_values(|p: Seq<char>| strip_cr(p));
    if parts.last().len() == 0 {
        terminated
    } else {
        terminated.push(parts.last())
    }
}

pub proof fn lemma_split_char_nonempty(s: Seq<char>, c: char)
    ensures
        crate::text::split_char(s, c).len() >= 1,
    decreases s.len(),
{
    if s.len() > 0 {
        lemma_split_char_nonempty(s.drop_last(), c);
    }
}

fn trim_newline_chars(s: &[char]) -> (t: Vec<char>)
    ensures
        t@ == trim_newlines(s@),
{
    let mut i: usize = 0;
    while i < s.len() && s[i] == '\n'
        invariant
            i <= s@.len(),
            lead_char_from(s@, '\n', 0) == lead_char_from(s@, '\n', i as int),
        decreases s.len() - i,
    {
        i = i + 1;
    }
    let rest = subvec(s, i, s.len());
    let mut e = rest.len();
    while e > 0 && rest[e - 1] == '\n'
        invariant
            e <= rest@.len(),
            trail_char_from(rest@, '\n', rest@.len() as int) == trail_char_from(
                rest@,
                '\n',
                e as int,
            ),
        decreases e,
    {
        e = e - 1;
    }
    subvec(&rest, 0, e)
}

pub fn lines_of(s: &[char]) -> (ls: Vec<Vec<char>>)
    ensures
        ls@.len() == lines(s@).len(),
        forall|k: int| 0 <= k < ls@.len() ==> #[trigger] ls@[k]@ == lines(s@)[k],
{
    let parts = crate::text::split_on_char(s, '\n');
    let ghost sp = crate::text::split_char(s@, '\n');
    proof {
        lemma_split_char_nonempty(s@, '\n');
    }
    let n = parts.len();
    let mut ls: Vec<Vec<char>> = Vec::new();
    for k in 0..n - 1
        invariant
            n == parts@.len() == sp.len() >= 1,
            forall|j: int| 0 <= j < parts@.len() ==> #[trigger] parts@[j]@ == sp[j],
            ls@.len() == k,
            forall|j: int| 0 <= j < k ==> #[trigger] ls@[j]@ == strip_cr(sp[j]),
    {
        let p = &parts[k];
        if p.len() > 0 && p[p.len() - 1] == '\r' {
            ls.push(subvec(p, 0, p.len() - 1));
        } else {
            ls.push(subvec(p, 0, p.len()));
            assert(p@.subrange(0, p@.len() as int) == p@);
        }
    }
    let last = &parts[n - 1];
    if last.len() > 0 {
        ls.push(subvec(last, 0, last.len()));
        assert(last@.subrange(0, last@.len() as int) == last@);
    }
    ls
}

/// The smallest indentation of the lines that are not blank.
pub open spec fn min_indent(ls: Seq<Seq<char>>) -> Option<int>
    decreases ls.len(),
{
    if ls.len() == 0 {
        None
    } else {
        let rest = min_indent(ls.drop_last());
        let l = ls.last();
        if trim(l).len() == 0 {
            rest
        } else {
            let d = indentation_spec(l);
            match rest {
                None => Some(d),
                Some(m) => Some(if d < m {
                    d
                } else {
                    m
                }),
            }
        }
    }
}

pub proof fn lemma_indentation_bounds(s: Seq<char>, i: int)
    requires
        0 <= i <= s.len(),
    ensures
        i <= indentation_from(s, i) <= s.len(),
    decreases s.len() - i,
{
    if i < s.len() && (s[i] == ' ' || s[i] == '\t') {
        lemma_indentation_bounds(s, i + 1);
    }
}

pub proof fn lemma_min_indent_le(ls: Seq<Seq<char>>, j: int)
    requires
        0 <= j < ls.len(),
        trim(ls[j]).len() > 0,
    ensures
        min_indent(ls) matches Some(m) && m <= indentation_spec(ls[j]),
    decreases ls.len(),
{
    if j < ls.len() - 1 {
        lemma_min_indent_le(ls.drop_last(), j);
        assert(ls.drop_last()[j] == ls[j]);
    }
}

/// One line of a Markdown block with the common indentation and trailing white space removed.
pub open spec fn dedent_line(l: Seq<char>, m: int) -> Seq<char> {
    if trim(l).len() == 0 {
        seq![]
    } else {
        trim_end(l.skip(m))
    }
}

/// A docstring body as Markdown: outer blank lines dropped, the smallest indentation of the
/// non-blank lines removed from every line, trailing white space removed.
pub open spec fn normalize_markdown_spec(content: Seq<char>) -> Seq<char> {
    let ls = lines(trim_newlines(content));
    let m = match min_indent(ls) {
        Some(m) => m,
        None => 0,
    };
    crate::text::join(ls.map_values(|l: Seq<char>| dedent_line(l, m)), seq!['\n'])
}

fn is_blank(s: &[char]) -> (b: bool)
    ensures
        b == (trim(s@).len() == 0),
{
    let t = trim_chars(s);
    t.len() == 0
}

fn normalize_markdown_block(content: &[char]) -> (out: Vec<char>)
    ensures
        out@ == normalize_markdown_spec(content@),
{
    let c = trim_newline_chars(content);
    let ls = lines_of(&c);
    let ghost lv = lines(c@);
    let mut m: Option<usize> = None;
    for k in 0..ls.len()
        invariant
            ls@.len() == lv.len(),
            forall|j: int| 0 <= j < ls@.len() ==> #[trigger] ls@[j]@ == lv[j],
            m matches Some(x) ==> min_indent(lv.take(k as int)) == Some(x as int),
            m is None ==> min_indent(lv.take(k as int)) is None,
    {
        assert(lv.take(k + 1).drop_last() == lv.take(k as int));
        assert(lv.take(k + 1).last() == ls@[k as int]@);
        if !is_blank(&ls[k]) {
            let d = indentation(&ls[k]);
            m = match m {
                None => Some(d),
                Some(x) => Some(if d < x {
                    d
                } else {
                    x
                }),
            };
        }
    }
    assert(lv.take(ls@.len() as int) == lv);
    let mi: usize = match m {
        Some(x) => x,
        None => 0,
    };
    let mut out_lines: Vec<Vec<char>> = Vec::new();
    for k in 0..ls.len()
        invariant
            ls@.len() == lv.len(),
            forall|j: int| 0 <= j < ls@.len() ==> #[trigger] ls@[j]@ == lv[j],
            out_lines@.len() == k,
            min_indent(lv) matches Some(x) ==> mi == x,
            forall|j: int|
                0 <= j < k ==> #[trigger] out_lines@[j]@ == dedent_line(lv[j], mi as int),
    {
        let l = &ls[k];
        if is_blank(l) {
            out_lines.push(Vec::new());
        } else {
            proof {
                lemma_min_indent_le(lv, k as int);
                lemma_indentation_bounds(l@, 0);
            }
            let skip = if mi <= l.len() {
                mi
            } else {
                l.len()
            };
            let rest = subvec(l, skip, l.len());
            assert(l@.skip(mi as int) == rest@);
            out_lines.push(trim_end_chars(&rest));
        }
    }
    let nl = ['\n'];
    assert(nl@ == seq!['\n']);
    let out = crate::text::join_chars(&out_lines, &nl);
    assert(out_lines@.map_values(|p: Vec<char>| p@) =~= lv.map_values(
        |l: Seq<char>| dedent_line(l, mi as int),
    ));
    out
}


pub open spec fn is_open_bracket(c: char) -> bool {
    c == '(' || c == '[' || c == '{'
}

pub open spec fn is_close_bracket(c: char) -> bool {
    c == ')' || c == ']' || c == '}'
}

/// Whether the text from index `i` on, in the given bracket depth and string state, holds an
/// `=` that is outside brackets and strings and is not part of `==`, `!=`, `<=` or `>=`.
pub open spec fn top_assign_from(s: Seq<char>, i: int, depth: int, quote: Option<char>) -> bool
    decreases s.len() + 2 - i,
{
    if i < 0 || i >= s.len() {
        false
    } else {
        let c = s[i];
        match quote {
            Some(q) => if c == '\\' {
                top_assign_from(s, i + 2, depth, quote)
            } else if c == q {
                top_assign_from(s, i + 1, depth, None)
            } else {
                top_assign_from(s, i + 1, depth, quote)
            },
            None => if c == '\'' || c == '"' {
                top_assign_from(s, i + 1, depth, Some(c))
            } else if is_open_bracket(c) {
                top_assign_from(s, i + 1, depth + 1, None)
            } else if is_close_bracket(c) {
                top_assign_from(s, i + 1, depth - 1, None)
            } else if c == '=' && depth == 0 && !(i > 0 && (s[i - 1] == '=' || s[i - 1] == '!'
                || s[i - 1] == '<' || s[i - 1] == '>')) && !(i + 1 < s.len() && s[i + 1] == '=') {
                true
            } else {
                top_assign_from(s, i + 1, depth, None)
            },
        }
    }
}

fn contains_top_level_assignment(text: &[char]) -> (r: bool)
    ensures
        r == top_assign_from(text@, 0, 0, None),
{
    let mut depth: i128 = 0;
    let mut quote: Option<char> = None;
    let mut idx: usize = 0;
    while idx < text.len()
        invariant
            -(idx as int) <= depth <= idx as int,
            top_assign_from(text@, 0, 0, None) == top_assign_from(
                text@,
                idx as int,
                depth as int,
                quote,
            ),
        decreases text@.len() + 2 - idx,
    {
        let c = text[idx];
        if let Some(q) = quote {
            if c == '\\' {
                if text.len() - idx < 2 {
                    proof {
                        reveal_with_fuel(top_assign_from, 2);
                    }
                    return false;
                }
                idx = idx + 2;
                continue;
            }
            if c == q {
                quote = None;
            }
            idx = idx + 1;
            continue;
        }
        if c == '\'' || c == '"' {
            quote = Some(c);
        } else if c == '(' || c == '[' || c == '{' {
            depth = depth + 1;
        } else if c == ')' || c == ']' || c == '}' {
            depth = depth - 1;
        } else if c == '=' && depth == 0 {
            let prev_blocks = idx > 0 && (text[idx - 1] == '=' || text[idx - 1] == '!' || text[idx
                - 1] == '<' || text[idx - 1] == '>');
            let next_blocks = idx + 1 < text.len() && text[idx + 1] == '=';
            if !prev_blocks && !next_blocks {
                return true;
            }
        }
        idx = idx + 1;
    }
    false
}

/// Whether the text from index `i` on holds `==` outside brackets (strings are not tracked).
pub open spec fn top_compare_from(s: Seq<char>, i: int, depth: int) -> bool
    decreases s.len() - i,
{
    if i < 0 || i + 1 >= s.len() {
        false
    } else {
        let c = s[i];
        if is_open_bracket(c) {
            top_compare_from(s, i + 1, depth + 1)
        } else if is_close_bracket(c) {
            top_compare_from(s, i + 1, depth - 1)
        } else if c == '=' && depth == 0 && s[i + 1] == '=' {
            true
        } else {
            top_compare_from(s, i + 1, depth)
        }
    }
}

fn contains_top_level_compare(text: &[char]) -> (r: bool)
    ensures
        r == top_compare_from(text@, 0, 0),
{
    let mut depth: i128 = 0;
    let mut idx: usize = 0;
    while idx < text.len() && idx + 1 < text.len()
        invariant
            -(idx as int) <= depth <= idx as int,
            top_compare_from(text@, 0, 0) == top_compare_from(text@, idx as int, depth as int),
        decreases text@.len() - idx,
    {
        let c = text[idx];
        if c == '(' || c == '[' || c == '{' {
            depth = depth + 1;
        } else if c == ')' || c == ']' || c == '}' {
            depth = depth - 1;
        } else if c == '=' && depth == 0 && text[idx + 1] == '=' {
            return true;
        }
        idx = idx + 1;
    }
    false
}

/// Whether a top-level line is an equation or assignment to render: not an import, decorator,
/// definition, control statement or `Annotated[...]` declaration, and holding a top-level `=`
/// or `==`.
pub open spec fn is_renderable_math_spec(t: Seq<char>) -> bool {
    if starts_with(t, "from "@) || starts_with(t, "import "@) || starts_with(t, seq!['@'])
        || starts_with(t, "def "@) || starts_with(t, "class "@) || starts_with(t, "if "@)
        || starts_with(t, "else"@) || starts_with(t, "elif "@) || starts_with(t, "return "@)
        || starts_with(t, "pass"@) {
        false
    } else if contains(t, "Annotated["@) {
        false
    } else {
        top_assign_from(t, 0, 0, None) || top_compare_from(t, 0, 0)
    }
}

fn is_renderable_math_statement(trimmed: &[char]) -> (r: bool)
    ensures
        r == is_renderable_math_spec(trimmed@),
{
    let at = ['@'];
    assert(at@ == seq!['@']);
    if starts_with_str(trimmed, "from ") || starts_with_str(trimmed, "import ")
        || crate::text::starts_with_chars(trimmed, &at) || starts_with_str(trimmed, "def ")
        || starts_with_str(trimmed, "class ") || starts_with_str(trimmed, "if ")
        || starts_with_str(trimmed, "else") || starts_with_str(trimmed, "elif ")
        || starts_with_str(trimmed, "return ") || starts_with_str(trimmed, "pass") {
        return false;
    }
    if contains_str(trimmed, "Annotated[") {
        return false;
    }
    contains_top_level_assignment(trimmed) || contains_top_level_compare(trimmed)
}

/// Whether a line starts one of the figure directives.
pub open spec fn starts_image_directive_spec(t: Seq<char>) -> bool {
    starts_with(t, "render_figure("@) || starts_with(t, "render_image("@) || starts_with(
        t,
        "render_plot("@,
    )
}

fn starts_image_directive(trimmed: &[char]) -> (r: bool)
    ensures
        r == starts_image_directive_spec(trimmed@),
{
    starts_with_str(trimmed, "render_figure(") || starts_with_str(trimmed, "render_image(")
        || starts_with_str(trimmed, "render_plot(")
}

/// The change of parenthesis depth over the text from index `i`, strings excluded.
pub open spec fn paren_delta_from(
    s: Seq<char>,
    i: int,
    depth: int,
    quote: Option<char>,
    escaped: bool,
) -> int
    decreases s.len() - i,
{
    if i < 0 || i >= s.len() {
        depth
    } else {
        let c = s[i];
        match quote {
            Some(q) => if escaped {
                paren_delta_from(s, i + 1, depth, quote, false)
            } else if c == '\\' {
                paren_delta_from(s, i + 1, depth, quote, true)
            } else if c == q {
                paren_delta_from(s, i + 1, depth, None, false)
            } else {
                paren_delta_from(s, i + 1, depth, quote, false)
            },
            None => if c == '\'' || c == '"' {
                paren_delta_from(s, i + 1, depth, Some(c), escaped)
            } else if c == '(' {
                paren_delta_from(s, i + 1, depth + 1, None, escaped)
            } else if c == ')' {
                paren_delta_from(s, i + 1, depth - 1, None, escaped)
            } else {
                paren_delta_from(s, i + 1, depth, None, escaped)
            },
        }
    }
}

pub open spec fn paren_delta_spec(s: Seq<char>) -> int {
    paren_delta_from(s, 0, 0, None, false)
}

pub proof fn lemma_paren_delta_bounds(s: Seq<char>, i: int, depth: int, quote: Option<char>, escaped: bool)
    requires
        0 <= i <= s.len(),
    ensures
        depth - (s.len() - i) <= paren_delta_from(s, i, depth, quote, escaped) <= depth + (s.len()
            - i),
    decreases s.len() - i,
{
    if i < s.len() {
        let c = s[i];
        match quote {
            Some(q) => if escaped {
                lemma_paren_delta_bounds(s, i + 1, depth, quote, false);
            } else if c == '\\' {
                lemma_paren_delta_bounds(s, i + 1, depth, quote, true);
            } else if c == q {
                lemma_paren_delta_bounds(s, i + 1, depth, None, false);
            } else {
                lemma_paren_delta_bounds(s, i + 1, depth, quote, false);
            },
            None => if c == '\'' || c == '"' {
                lemma_paren_delta_bounds(s, i + 1, depth, Some(c), escaped);
            } else if c == '(' {
                lemma_paren_delta_bounds(s, i + 1, depth + 1, None, escaped);
            } else if c == ')' {
                lemma_paren_delta_bounds(s, i + 1, depth - 1, None, escaped);
            } else {
                lemma_paren_delta_bounds(s, i + 1, depth, None, escaped);
            },
        }
    }
}

fn paren_delta(text: &[char]) -> (d: i128)
    ensures
        d == paren_delta_spec(text@),
        -(text@.len() as int) <= d <= text@.len(),
{
    let mut depth: i128 = 0;
    let mut quote: Option<char> = None;
    let mut escaped = false;
    proof {
        lemma_paren_delta_bounds(text@, 0, 0, None, false);
    }
    for idx in 0..text.len()
        invariant
            -(idx as int) <= depth <= idx as int,
            paren_delta_spec(text@) == paren_delta_from(
                text@,
                idx as int,
                depth as int,
                quote,
                escaped,
            ),
    {
        let c = text[idx];
        if let Some(q) = quote {
            if escaped {
                escaped = false;
            } else if c == '\\' {
                escaped = true;
            } else if c == q {
                quote = None;
            }
        } else if c == '\'' || c == '"' {
            quote = Some(c);
        } else if c == '(' {
            depth = depth + 1;
        } else if c == ')' {
            depth = depth - 1;
        }
    }
    depth
}

pub open spec fn is_name_char(c: char) -> bool {
    c == '_' || is_ascii_alphabetic(c) || is_ascii_digit(c)
}

/// The callee name and the argument text of a call written `name(args)`.
pub open spec fn call_parts_spec(t: Seq<char>) -> Option<(Seq<char>, Seq<char>)> {
    match find(t, seq!['(']) {
        None => None,
        Some(open) => if !crate::text::ends_with(t, seq![')']) {
            None
        } else {
            let name = trim(t.take(open));
            if !(forall|j: int| 0 <= j < name.len() ==> is_name_char(#[trigger] name[j])) {
                None
            } else {
                Some((name, t.subrange(open + 1, t.len() - 1)))
            }
        },
    }
}

fn call_parts(trimmed: &[char]) -> (r: Option<(Vec<char>, Vec<char>)>)
    ensures
        r matches Some((n, a)) ==> call_parts_spec(trimmed@) == Some((n@, a@)),
        r is None ==> call_parts_spec(trimmed@) is None,
{
    let open = match find_char(trimmed, '(') {
        None => return None,
        Some(o) => o,
    };
    let close = [')'];
    assert(close@ == seq![')']);
    if !crate::text::ends_with_chars(trimmed, &close) {
        return None;
    }
    let len = trimmed.len();
    assert(trimmed@[len - 1] == ')') by {
        assert(trimmed@.skip(len - 1)[0] == trimmed@[len - 1]);
    }
    let head = subvec(trimmed, 0, open);
    assert(head@ == trimmed@.take(open as int));
    let name = trim_chars(&head);
    let mut i: usize = 0;
    while i < name.len()
        invariant
            i <= name@.len(),
            forall|j: int| 0 <= j < i ==> is_name_char(#[trigger] name@[j]),
            name@ == trim(trimmed@.take(open as int)),
            find(trimmed@, seq!['(']) == Some(open as int),
            crate::text::ends_with(trimmed@, seq![')']),
        decreases name.len() - i,
    {
        let c = name[i];
        if !(c == '_' || is_ascii_alphabetic_char(c) || is_ascii_digit_char(c)) {
            assert(!is_name_char(name@[i as int]));
            return None;
        }
        i = i + 1;
    }
    let args = subvec(trimmed, open + 1, len - 1);
    Some((name, args))
}

/// The pieces of `s` from index `i` on, split at `sep` outside brackets and strings; the
/// current piece started at `start`.
pub open spec fn split_top_from(
    s: Seq<char>,
    sep: char,
    i: int,
    start: int,
    depth: int,
    quote: Option<char>,
    escaped: bool,
) -> Seq<Seq<char>>
    decreases s.len() - i,
{
    if i < 0 || i >= s.len() {
        seq![s.subrange(start, s.len() as int)]
    } else {
        let c = s[i];
        match quote {
            Some(q) => if escaped {
                split_top_from(s, sep, i + 1, start, depth, quote, false)
            } else if c == '\\' {
                split_top_from(s, sep, i + 1, start, depth, quote, true)
            } else if c == q {
                split_top_from(s, sep, i + 1, start, depth, None, false)
            } else {
                split_top_from(s, sep, i + 1, start, depth, quote, false)
            },
            None => if c == '\'' || c == '"' {
                split_top_from(s, sep, i + 1, start, depth, Some(c), escaped)
            } else if is_open_bracket(c) {
                split_top_from(s, sep, i + 1, start, depth + 1, None, escaped)
            } else if is_close_bracket(c) {
                split_top_from(s, sep, i + 1, start, depth - 1, None, escaped)
            } else if c == sep && depth == 0 {
                seq![s.subrange(start, i)] + split_top_from(
                    s,
                    sep,
                    i + 1,
                    i + 1,
                    depth,
                    None,
                    escaped,
                )
            } else {
                split_top_from(s, sep, i + 1, start, depth, None, escaped)
            },
        }
    }
}

/// `text` split at the separator where it stands outside brackets and string literals.
pub open spec fn split_top_level_spec(s: Seq<char>, sep: char) -> Seq<Seq<char>> {
    split_top_from(s, sep, 0, 0, 0, None, false)
}

fn split_top_level(text: &[char], separator: char) -> (parts: Vec<Vec<char>>)
    ensures
        parts@.len() == split_top_level_spec(text@, separator).len(),
        forall|k: int|
            0 <= k < parts@.len() ==> #[trigger] parts@[k]@ == split_top_level_spec(
                text@,
                separator,
            )[k],
{
    let mut parts: Vec<Vec<char>> = Vec::new();
    let mut start: usize = 0;
    let mut depth: i128 = 0;
    let mut quote: Option<char> = None;
    let mut escaped = false;
    let ghost whole = split_top_level_spec(text@, separator);
    for idx in 0..text.len()
        invariant
            -(idx as int) <= depth <= idx as int,
            start <= idx,
            whole == parts@.map_values(|p: Vec<char>| p@) + split_top_from(
                text@,
                separator,
                idx as int,
                start as int,
                depth as int,
                quote,
                escaped,
            ),
    {
        let c = text[idx];
        if let Some(q) = quote {
            if escaped {
                escaped = false;
            } else if c == '\\' {
                escaped = true;
            } else if c == q {
                quote = None;
            }
        } else if c == '\'' || c == '"' {
            quote = Some(c);
        } else if c == '(' || c == '[' || c == '{' {
            depth = depth + 1;
        } else if c == ')' || c == ']' || c == '}' {
            depth = depth - 1;
        } else if c == separator && depth == 0 {
            let ghost before = parts@.map_values(|p: Vec<char>| p@);
            let piece = subvec(text, start, idx);
            parts.push(piece);
            assert(parts@.map_values(|p: Vec<char>| p@) =~= before.push(text@.subrange(
                start as int,
                idx as int,
            )));
            assert(before.push(text@.subrange(start as int, idx as int)) + split_top_from(
                text@,
                separator,
                idx + 1,
                idx + 1,
                depth as int,
                None,
                escaped,
            ) =~= before + (seq![text@.subrange(start as int, idx as int)] + split_top_from(
                text@,
                separator,
                idx + 1,
                idx + 1,
                depth as int,
                None,
                escaped,
            )));
            start = idx + 1;
        }
    }
    let ghost before = parts@.map_values(|p: Vec<char>| p@);
    let last = subvec(text, start, text.len());
    parts.push(last);
    assert(parts@.map_values(|p: Vec<char>| p@) =~= whole);
    parts
}


/// The index of the first `=` outside brackets and strings, from index `i` on.
pub open spec fn keyword_eq_from(
    s: Seq<char>,
    i: int,
    depth: int,
    quote: Option<char>,
    escaped: bool,
) -> Option<int>
    decreases s.len() - i,
{
    if i < 0 || i >= s.len() {
        None
    } else {
        let c = s[i];
        match quote {
            Some(q) => if escaped {
                keyword_eq_from(s, i + 1, depth, quote, false)
            } else if c == '\\' {
                keyword_eq_from(s, i + 1, depth, quote, true)
            } else if c == q {
                keyword_eq_from(s, i + 1, depth, None, false)
            } else {
                keyword_eq_from(s, i + 1, depth, quote, false)
            },
            None => if c == '\'' || c == '"' {
                keyword_eq_from(s, i + 1, depth, Some(c), escaped)
            } else if is_open_bracket(c) {
                keyword_eq_from(s, i + 1, depth + 1, None, escaped)
            } else if is_close_bracket(c) {
                keyword_eq_from(s, i + 1, depth - 1, None, escaped)
            } else if c == '=' && depth == 0 {
                Some(i)
            } else {
                keyword_eq_from(s, i + 1, depth, None, escaped)
            },
        }
    }
}

pub proof fn lemma_keyword_eq_bounds(s: Seq<char>, i: int, depth: int, quote: Option<char>, escaped: bool)
    ensures
        keyword_eq_from(s, i, depth, quote, escaped) matches Some(k) ==> 0 <= k < s.len(),
    decreases s.len() - i,
{
    if 0 <= i < s.len() {
        let c = s[i];
        match quote {
            Some(q) => if escaped {
                lemma_keyword_eq_bounds(s, i + 1, depth, quote, false);
            } else if c == '\\' {
                lemma_keyword_eq_bounds(s, i + 1, depth, quote, true);
            } else if c == q {
                lemma_keyword_eq_bounds(s, i + 1, depth, None, false);
            } else {
                lemma_keyword_eq_bounds(s, i + 1, depth, quote, false);
            },
            None => if c == '\'' || c == '"' {
                lemma_keyword_eq_bounds(s, i + 1, depth, Some(c), escaped);
            } else if is_open_bracket(c) {
                lemma_keyword_eq_bounds(s, i + 1, depth + 1, None, escaped);
            } else if is_close_bracket(c) {
                lemma_keyword_eq_bounds(s, i + 1, depth - 1, None, escaped);
            } else if c == '=' && depth == 0 {
            } else {
                lemma_keyword_eq_bounds(s, i + 1, depth, None, escaped);
            },
        }
    }
}

/// A `name=value` argument split at its first top-level `=`.
pub open spec fn split_keyword_spec(s: Seq<char>) -> Option<(Seq<char>, Seq<char>)> {
    match keyword_eq_from(s, 0, 0, None, false) {
        Some(k) => Some((s.take(k), s.skip(k + 1))),
        None => None,
    }
}

fn split_keyword_arg(arg: &[char]) -> (r: Option<(Vec<char>, Vec<char>)>)
    ensures
        r matches Some((n, v)) ==> split_keyword_spec(arg@) == Some((n@, v@)),
        r is None ==> split_keyword_spec(arg@) is None,
{
    let mut depth: i128 = 0;
    let mut quote: Option<char> = None;
    let mut escaped = false;
    proof {
        lemma_keyword_eq_bounds(arg@, 0, 0, None, false);
    }
    let mut idx: usize = 0;
    while idx < arg.len()
        invariant
            idx <= arg@.len(),
            -(idx as int) <= depth <= idx as int,
            keyword_eq_from(arg@, 0, 0, None, false) == keyword_eq_from(
                arg@,
                idx as int,
                depth as int,
                quote,
                escaped,
            ),
        decreases arg.len() - idx,
    {
        let c = arg[idx];
        if let Some(q) = quote {
            if escaped {
                escaped = false;
            } else if c == '\\' {
                escaped = true;
            } else if c == q {
                quote = None;
            }
        } else if c == '\'' || c == '"' {
            quote = Some(c);
        } else if c == '(' || c == '[' || c == '{' {
            depth = depth + 1;
        } else if c == ')' || c == ']' || c == '}' {
            depth = depth - 1;
        } else if c == '=' && depth == 0 {
            let n = subvec(arg, 0, idx);
            let v = subvec(arg, idx + 1, arg.len());
            assert(n@ == arg@.take(idx as int));
            assert(v@ == arg@.skip(idx + 1));
            return Some((n, v));
        }
        idx = idx + 1;
    }
    None
}

/// The index of the quote that closes a string literal, from index `i` on; a backslash
/// skips the character after it.
pub open spec fn quote_end_from(s: Seq<char>, q: char, i: int) -> Option<int>
    decreases s.len() + 2 - i,
{
    if i < 0 || i >= s.len() {
        None
    } else if s[i] == '\\' {
        quote_end_from(s, q, i + 2)
    } else if s[i] == q {
        Some(i)
    } else {
        quote_end_from(s, q, i + 1)
    }
}

pub proof fn lemma_quote_end_bounds(s: Seq<char>, q: char, i: int)
    ensures
        quote_end_from(s, q, i) matches Some(k) ==> i <= k < s.len() && s[k] == q,
    decreases s.len() + 2 - i,
{
    if 0 <= i < s.len() {
        if s[i] == '\\' {
            lemma_quote_end_bounds(s, q, i + 2);
        } else if s[i] != q {
            lemma_quote_end_bounds(s, q, i + 1);
        }
    }
}

fn matching_quote_end(value: &[char], start: usize, quote: char) -> (r: Option<usize>)
    requires
        start < value@.len(),
    ensures
        r matches Some(k) ==> quote_end_from(value@, quote, start + 1) == Some(k as int),
        r is None ==> quote_end_from(value@, quote, start + 1) is None,
{
    let len = value.len();
    assert(start < len);
    let mut idx = start + 1;
    while idx < value.len()
        invariant
            start + 1 <= idx,
            quote_end_from(value@, quote, start + 1) == quote_end_from(value@, quote, idx as int),
        decreases value@.len() + 2 - idx,
    {
        let c = value[idx];
        if c == '\\' {
            if value.len() - idx < 2 {
                proof {
                    reveal_with_fuel(quote_end_from, 2);
                }
                return None;
            }
            idx = idx + 2;
        } else if c == quote {
            return Some(idx);
        } else {
            idx = idx + 1;
        }
    }
    None
}

/// The Python escapes `\n`, `\r`, `\t`, `\\` and the escaped quote resolved; any other
/// backslash is kept with the character after it.
pub open spec fn unescape_from(s: Seq<char>, q: char, i: int) -> Seq<char>
    decreases s.len() - i,
{
    if i < 0 || i >= s.len() {
        seq![]
    } else if s[i] != '\\' {
        seq![s[i]] + unescape_from(s, q, i + 1)
    } else if i + 1 >= s.len() {
        seq!['\\']
    } else {
        let n = s[i + 1];
        (if n == 'n' {
            seq!['\n']
        } else if n == 'r' {
            seq!['\r']
        } else if n == 't' {
            seq!['\t']
        } else if n == '\\' {
            seq!['\\']
        } else if n == '\'' && q == '\'' {
            seq!['\'']
        } else if n == '"' && q == '"' {
            seq!['"']
        } else {
            seq!['\\', n]
        }) + unescape_from(s, q, i + 2)
    }
}

fn unescape_python_string(value: &[char], quote: char) -> (out: Vec<char>)
    ensures
        out@ == unescape_from(value@, quote, 0),
{
    let mut out: Vec<char> = Vec::new();
    let mut i: usize = 0;
    while i < value.len()
        invariant
            i <= value@.len() + 1,
            unescape_from(value@, quote, 0) == out@ + unescape_from(value@, quote, i as int),
        decreases value@.len() + 1 - i,
    {
        let c = value[i];
        if c != '\\' {
            out.push(c);
            i = i + 1;
        } else if i + 1 >= value.len() {
            out.push('\\');
            i = i + 1;
        } else {
            let n = value[i + 1];
            if n == 'n' {
                out.push('\n');
            } else if n == 'r' {
                out.push('\r');
            } else if n == 't' {
                out.push('\t');
            } else if n == '\\' {
                out.push('\\');
            } else if n == '\'' && quote == '\'' {
                out.push('\'');
            } else if n == '"' && quote == '"' {
                out.push('"');
            } else {
                out.push('\\');
                out.push(n);
            }
            i = i + 2;
        }
    }
    out
}

/// What trying a string literal with a prefix of `plen` characters gives: `None` to try the
/// next prefix, `Some(r)` to stop with `r`.
pub open spec fn literal_attempt(value: Seq<char>, prefix: Seq<char>) -> Option<Option<Seq<char>>> {
    let lower = ascii_lower_seq(value);
    let plen = prefix.len() as int;
    if !starts_with(lower, prefix) {
        None
    } else {
        let rest = lower.skip(plen);
        if starts_with(rest, seq!['"', '"', '"']) || starts_with(rest, seq!['\'', '\'', '\'']) {
            None
        } else if starts_with(rest, seq!['"']) || starts_with(rest, seq!['\'']) {
            let q = value[plen];
            match quote_end_from(value, q, plen + 1) {
                None => Some(None),
                Some(close) => if trim(value.skip(close + 1)).len() == 0 {
                    Some(Some(unescape_from(value.subrange(plen + 1, close), q, 0)))
                } else {
                    None
                },
            }
        } else {
            None
        }
    }
}

/// The value of a single-line Python string literal, with an optional `r` or `u` prefix.
pub open spec fn python_string_literal_spec(value: Seq<char>) -> Option<Seq<char>> {
    match literal_attempt(value, seq![]) {
        Some(r) => r,
        None => match literal_attempt(value, seq!['r']) {
            Some(r) => r,
            None => match literal_attempt(value, seq!['u']) {
                Some(r) => r,
                None => None,
            },
        },
    }
}

fn literal_attempt_exec(value: &[char], lower: &[char], prefix: &[char]) -> (r: Option<Option<Vec<char>>>)
    requires
        lower@ == ascii_lower_seq(value@),
    ensures
        r matches Some(Some(v)) ==> literal_attempt(value@, prefix@) == Some(Some(v@)),
        r matches Some(None) ==> literal_attempt(value@, prefix@) == Some(None::<Seq<char>>),
        r is None ==> literal_attempt(value@, prefix@) is None,
{
    if !crate::text::starts_with_chars(lower, prefix) {
        return None;
    }
    let plen = prefix.len();
    let rest = subvec(lower, plen, lower.len());
    assert(rest@ == lower@.skip(plen as int));
    let tq = ['"', '"', '"'];
    let ts = ['\'', '\'', '\''];
    let dq = ['"'];
    let sq = ['\''];
    assert(tq@ == seq!['"', '"', '"']);
    assert(ts@ == seq!['\'', '\'', '\'']);
    assert(dq@ == seq!['"']);
    assert(sq@ == seq!['\'']);
    if crate::text::starts_with_chars(&rest, &tq) || crate::text::starts_with_chars(&rest, &ts) {
        return None;
    }
    if crate::text::starts_with_chars(&rest, &dq) || crate::text::starts_with_chars(&rest, &sq) {
        assert(plen < value@.len()) by {
            assert(rest@.len() >= 1);
        }
        let q = value[plen];
        let close = match matching_quote_end(value, plen, q) {
            None => return Some(None),
            Some(k) => k,
        };
        proof {
            lemma_quote_end_bounds(value@, q, plen + 1);
        }
        let after = subvec(value, close + 1, value.len());
        assert(after@ == value@.skip(close + 1));
        let t = trim_chars(&after);
        if t.len() == 0 {
            let inner = subvec(value, plen + 1, close);
            return Some(Some(unescape_python_string(&inner, q)));
        }
        return None;
    }
    None
}

fn python_string_literal(value: &[char]) -> (r: Option<Vec<char>>)
    ensures
        r matches Some(v) ==> python_string_literal_spec(value@) == Some(v@),
        r is None ==> python_string_literal_spec(value@) is None,
{
    let lower = ascii_lower_chars(value);
    let e: [char; 0] = [];
    let rp = ['r'];
    let up = ['u'];
    assert(e@ == Seq::<char>::empty());
    assert(rp@ == seq!['r']);
    assert(up@ == seq!['u']);
    match literal_attempt_exec(value, &lower, &e) {
        Some(r) => return r,
        None => {},
    }
    match literal_attempt_exec(value, &lower, &rp) {
        Some(r) => return r,
        None => {},
    }
    match literal_attempt_exec(value, &lower, &up) {
        Some(r) => return r,
        None => {},
    }
    None
}

/// An argument of a figure directive call.
#[derive(Debug, Clone, PartialEq, Eq)]
pub enum CallArgument {
    Positional(Vec<char>),
    Keyword { name: Vec<char>, value: Vec<char> },
}

pub enum CallArgumentView {
    Positional(Seq<char>),
    Keyword { name: Seq<char>, value: Seq<char> },
}

impl View for CallArgument {
    type V = CallArgumentView;

    open spec fn view(&self) -> CallArgumentView {
        match self {
            CallArgument::Positional(v) => CallArgumentView::Positional(v@),
            CallArgument::Keyword { name, value } => CallArgumentView::Keyword {
                name: name@,
                value: value@,
            },
        }
    }
}

/// One trimmed argument: `name=value` with a string value, or a positional string.
pub open spec fn parse_argument_spec(arg: Seq<char>) -> Option<CallArgumentView> {
    match split_keyword_spec(arg) {
        Some((n, v)) => match python_string_literal_spec(trim(v)) {
            Some(val) => Some(CallArgumentView::Keyword { name: trim(n), value: val }),
            None => None,
        },
        None => match python_string_literal_spec(arg) {
            Some(val) => Some(CallArgumentView::Positional(val)),
            None => None,
        },
    }
}

/// The arguments of the non-blank pieces, or `None` if one of them is not a string argument.
pub open spec fn parse_pieces_spec(parts: Seq<Seq<char>>) -> Option<Seq<CallArgumentView>>
    decreases parts.len(),
{
    if parts.len() == 0 {
        Some(seq![])
    } else {
        match parse_pieces_spec(parts.drop_last()) {
            None => None,
            Some(v) => if trim(parts.last()).len() == 0 {
                Some(v)
            } else {
                match parse_argument_spec(trim(parts.last())) {
                    Some(a) => Some(v.push(a)),
                    None => None,
                }
            },
        }
    }
}

/// The string arguments of a call, or `None` if one of them is not a string.
pub open spec fn parse_call_arguments_spec(args: Seq<char>) -> Option<Seq<CallArgumentView>> {
    if trim(args).len() == 0 {
        Some(seq![])
    } else {
        parse_pieces_spec(split_top_level_spec(args, ','))
    }
}

pub open spec fn args_view(v: Seq<CallArgument>) -> Seq<CallArgumentView> {
    v.map_values(|a: CallArgument| a@)
}

fn parse_call_arguments(args: &[char]) -> (r: Option<Vec<CallArgument>>)
    ensures
        r matches Some(v) ==> parse_call_arguments_spec(args@) == Some(args_view(v@)),
        r is None ==> parse_call_arguments_spec(args@) is None,
{
    let t = trim_chars(args);
    if t.len() == 0 {
        let v: Vec<CallArgument> = Vec::new();
        assert(args_view(v@) =~= Seq::<CallArgumentView>::empty());
        return Some(v);
    }
    let parts = split_top_level(args, ',');
    let ghost pv = split_top_level_spec(args@, ',');
    let mut out: Vec<CallArgument> = Vec::new();
    for k in 0..parts.len()
        invariant
            parts@.len() == pv.len(),
            forall|j: int| 0 <= j < parts@.len() ==> #[trigger] parts@[j]@ == pv[j],
            parse_pieces_spec(pv.take(k as int)) == Some(args_view(out@)),
            pv == split_top_level_spec(args@, ','),
            trim(args@).len() > 0,
    {
        assert(pv.take(k + 1).drop_last() == pv.take(k as int));
        assert(pv.take(k + 1).last() == parts@[k as int]@);
        let arg = trim_chars(&parts[k]);
        assert(arg@ == trim(pv.take(k + 1).last()));
        if arg.len() > 0 {
            let parsed = match split_keyword_arg(&arg) {
                Some((n, v)) => {
                    let tv = trim_chars(&v);
                    match python_string_literal(&tv) {
                        Some(val) => CallArgument::Keyword { name: trim_chars(&n), value: val },
                        None => {
                            proof {
                                assert(parse_argument_spec(arg@) is None);
                                assert(parse_pieces_spec(pv.take(k + 1)) is None);
                                lemma_parse_pieces_none_extends(pv, k as int + 1);
                            }
                            return None;
                        },
                    }
                },
                None => match python_string_literal(&arg) {
                    Some(val) => CallArgument::Positional(val),
                    None => {
                        proof {
                            assert(parse_argument_spec(arg@) is None);
                            assert(parse_pieces_spec(pv.take(k + 1)) is None);
                            lemma_parse_pieces_none_extends(pv, k as int + 1);
                        }
                        return None;
                    },
                },
            };
            let ghost before = args_view(out@);
            out.push(parsed);
            assert(args_view(out@) =~= before.push(parsed@));
        }
    }
    assert(pv.take(parts@.len() as int) == pv);
    Some(out)
}

pub proof fn lemma_parse_pieces_none_extends(parts: Seq<Seq<char>>, k: int)
    requires
        0 <= k <= parts.len(),
        parse_pieces_spec(parts.take(k)) is None,
    ensures
        parse_pieces_spec(parts) is None,
    decreases parts.len() - k,
{
    if k < parts.len() {
        assert(parts.take(k + 1).drop_last() == parts.take(k));
        lemma_parse_pieces_none_extends(parts, k + 1);
    } else {
        assert(parts.take(k) == parts);
    }
}

/// The value of the first keyword argument called `name`.
pub open spec fn keyword_argument_spec(args: Seq<CallArgumentView>, name: Seq<char>) -> Option<Seq<char>>
    decreases args.len(),
{
    if args.len() == 0 {
        None
    } else {
        match args[0] {
            CallArgumentView::Keyword { name: n, value } => if n == name {
                Some(value)
            } else {
                keyword_argument_spec(args.drop_first(), name)
            },
            _ => keyword_argument_spec(args.drop_first(), name),
        }
    }
}

fn keyword_argument(args: &Vec<CallArgument>, name: &str) -> (r: Option<Vec<char>>)
    ensures
        r matches Some(v) ==> keyword_argument_spec(args_view(args@), name@) == Some(v@),
        r is None ==> keyword_argument_spec(args_view(args@), name@) is None,
{
    let ghost av = args_view(args@);
    assert(av.skip(0) == av);
    for i in 0..args.len()
        invariant
            av == args_view(args@),
            keyword_argument_spec(av, name@) == keyword_argument_spec(av.skip(i as int), name@),
    {
        assert(av.skip(i as int)[0] == args@[i as int]@);
        assert(av.skip(i as int).drop_first() == av.skip(i + 1));
        match &args[i] {
            CallArgument::Keyword { name: n, value } => {
                if eq_str(n, name) {
                    return Some(subvec(value, 0, value.len()));
                }
            },
            _ => {},
        }
    }
    None
}

/// The source of a figure: the first positional argument or `src=` keyword.
pub open spec fn figure_src_spec(args: Seq<CallArgumentView>) -> Option<Seq<char>>
    decreases args.len(),
{
    if args.len() == 0 {
        None
    } else {
        match args[0] {
            CallArgumentView::Positional(v) => Some(v),
            CallArgumentView::Keyword { name, value } => if name == "src"@ {
                Some(value)
            } else {
                figure_src_spec(args.drop_first())
            },
        }
    }
}

fn figure_src(args: &Vec<CallArgument>) -> (r: Option<Vec<char>>)
    ensures
        r matches Some(v) ==> figure_src_spec(args_view(args@)) == Some(v@),
        r is None ==> figure_src_spec(args_view(args@)) is None,
{
    let ghost av = args_view(args@);
    assert(av.skip(0) == av);
    for i in 0..args.len()
        invariant
            av == args_view(args@),
            figure_src_spec(av) == figure_src_spec(av.skip(i as int)),
    {
        assert(av.skip(i as int)[0] == args@[i as int]@);
        assert(av.skip(i as int).drop_first() == av.skip(i + 1));
        match &args[i] {
            CallArgument::Positional(v) => {
                return Some(subvec(v, 0, v.len()));
            },
            CallArgument::Keyword { name: n, value } => {
                if eq_str(n, "src") {
                    return Some(subvec(value, 0, value.len()));
                }
            },
        }
    }
    None
}

pub open spec fn nonempty_or_none(o: Option<Seq<char>>) -> Option<Seq<char>> {
    match o {
        Some(v) => if v.len() > 0 {
            Some(v)
        } else {
            None
        },
        None => None,
    }
}

/// The image block of a `render_figure`, `render_image` or `render_plot` call with string
/// arguments and a source.
pub open spec fn image_directive_spec(t: Seq<char>) -> Option<crate::ast::BlockKindView> {
    match call_parts_spec(t) {
        None => None,
        Some((name, args)) => if name != "render_figure"@ && name != "render_image"@ && name
            != "render_plot"@ {
            None
        } else {
            match parse_call_arguments_spec(args) {
                None => None,
                Some(a) => match figure_src_spec(a) {
                    None => None,
                    Some(src) => Some(
                        crate::ast::BlockKindView::Image {
                            src,
                            alt: match keyword_argument_spec(a, "alt"@) {
                                Some(v) => v,
                                None => seq![],
                            },
                            title: nonempty_or_none(keyword_argument_spec(a, "title"@)),
                            caption: nonempty_or_none(keyword_argument_spec(a, "caption"@)),
                        },
                    ),
                },
            }
        },
    }
}

fn string_opt_nonempty(v: Option<Vec<char>>) -> (r: Option<String>)
    ensures
        crate::ast::opt_view(r) == nonempty_or_none(match v {
            Some(x) => Some(x@),
            None => None,
        }),
{
    match v {
        Some(x) => if x.len() > 0 {
            Some(crate::text::string_of(&x))
        } else {
            None
        },
        None => None,
    }
}

fn image_directive(statement: &[char]) -> (r: Option<crate::ast::BlockKind>)
    ensures
        r matches Some(b) ==> image_directive_spec(statement@) == Some(b@),
        r is None ==> image_directive_spec(statement@) is None,
{
    let (name, args) = match call_parts(statement) {
        None => return None,
        Some(p) => p,
    };
    if !eq_str(&name, "render_figure") && !eq_str(&name, "render_image") && !eq_str(
        &name,
        "render_plot",
    ) {
        return None;
    }
    let args = match parse_call_arguments(&args) {
        None => return None,
        Some(a) => a,
    };
    let src = match figure_src(&args) {
        None => return None,
        Some(s) => s,
    };
    let alt = match keyword_argument(&args, "alt") {
        Some(v) => v,
        None => Vec::new(),
    };
    let title = string_opt_nonempty(keyword_argument(&args, "title"));
    let caption = string_opt_nonempty(keyword_argument(&args, "caption"));
    Some(
        crate::ast::BlockKind::Image {
            src: crate::text::string_of(&src),
            alt: crate::text::string_of(&alt),
            title,
            caption,
        },
    )
}


/// The number of lines of a text.
pub open spec fn line_count_of(s: Seq<char>) -> int {
    crate::ast::line_char_starts(s).len() as int
}

/// The statement of a figure directive that spans lines, and its last line: lines are added,
/// trimmed and joined by `'\n'`, while parentheses stay open.
pub open spec fn collect_from(s: Seq<char>, end_line: int, depth: int, stmt: Seq<char>) -> (
    Seq<char>,
    int,
)
    decreases line_count_of(s) - end_line,
{
    if depth > 0 && end_line + 1 < line_count_of(s) {
        let l = trim(crate::ast::line_or_empty(s, end_line + 1));
        collect_from(s, end_line + 1, depth + paren_delta_spec(l), stmt + seq!['\n'] + l)
    } else {
        (stmt, end_line)
    }
}

pub proof fn lemma_collect_from_ge(s: Seq<char>, end_line: int, depth: int, stmt: Seq<char>)
    ensures
        collect_from(s, end_line, depth, stmt).1 >= end_line,
        end_line < line_count_of(s) ==> collect_from(s, end_line, depth, stmt).1 < line_count_of(
            s,
        ),
    decreases line_count_of(s) - end_line,
{
    if depth > 0 && end_line + 1 < line_count_of(s) {
        let l = trim(crate::ast::line_or_empty(s, end_line + 1));
        lemma_collect_from_ge(s, end_line + 1, depth + paren_delta_spec(l), stmt + seq!['\n'] + l);
    }
}

/// The body of a triple-quoted string that did not close on its first line, and the line
/// where it closes (the line count if it never does).
pub open spec fn triple_body_from(s: Seq<char>, q: Seq<char>, k: int, acc: Seq<char>) -> (
    Seq<char>,
    int,
)
    decreases line_count_of(s) - k,
{
    if k < 0 || k >= line_count_of(s) {
        (acc, k)
    } else {
        let body = crate::ast::line_or_empty(s, k);
        match find(body, q) {
            Some(c) => (acc + body.take(c), k),
            None => triple_body_from(s, q, k + 1, acc + body + seq!['\n']),
        }
    }
}

pub proof fn lemma_triple_body_ge(s: Seq<char>, q: Seq<char>, k: int, acc: Seq<char>)
    ensures
        triple_body_from(s, q, k, acc).1 >= k,
        k >= 0 ==> triple_body_from(s, q, k, acc).1 <= line_count_of(s) || triple_body_from(
            s,
            q,
            k,
            acc,
        ).1 == k,
    decreases line_count_of(s) - k,
{
    if !(k < 0 || k >= line_count_of(s)) {
        let body = crate::ast::line_or_empty(s, k);
        if find(body, q) is None {
            lemma_triple_body_ge(s, q, k + 1, acc + body + seq!['\n']);
        }
    }
}

/// What the scanner carries from line to line.
#[derive(Debug, Clone, Copy, PartialEq, Eq, Structural)]
pub struct ScanState {
    pub disabled: bool,
    pub ignore_next: bool,
    pub config: RenderConfig,
}

/// The byte offset of the first non-blank character of line `line`.
pub open spec fn first_text_byte(s: Seq<char>, line: int) -> int {
    let text = crate::ast::line_or_empty(s, line);
    let k = match find(text, trim(text)) {
        Some(k) => k,
        None => 0,
    };
    crate::ast::line_start_or_end(s, line) + crate::text::utf8_len(text.take(k))
}

/// One step of the scanner at line `line`: the next line to look at, the new state and the
/// block found, if any.
#[verifier::opaque]
pub open spec fn scan_step(s: Seq<char>, line: int, st: ScanState) -> (
    int,
    ScanState,
    Option<crate::ast::BlockView>,
) {
    let text = crate::ast::line_or_empty(s, line);
    let trimmed = trim(text);
    match standalone_command_spec(trimmed) {
        Some(cmd) => (line + 1, if cmd == "off"@ {
            ScanState { disabled: true, ..st }
        } else if cmd == "on"@ {
            ScanState { disabled: false, ..st }
        } else if cmd == "ignore"@ {
            ScanState { ignore_next: true, ..st }
        } else {
            ScanState { config: apply_config_spec(st.config, cmd), ..st }
        }, None),
        None => if st.disabled || trimmed.len() == 0 || starts_with(trimmed, seq!['#']) {
            (line + 1, st, None)
        } else if st.ignore_next {
            (line + 1, ScanState { ignore_next: false, ..st }, None)
        } else if indentation_spec(text) != 0 {
            (line + 1, st, None)
        } else {
            let start = first_text_byte(s, line);
            match triple_string_start_spec(trimmed) {
                Some((plen, qc)) => {
                    let q = seq![qc, qc, qc];
                    let after_open = trimmed.skip(plen + 3);
                    let (content, end_line) = match find(after_open, q) {
                        Some(c) => (after_open.take(c), line),
                        None => triple_body_from(
                            s,
                            q,
                            line + 1,
                            if after_open.len() > 0 {
                                after_open + seq!['\n']
                            } else {
                                seq![]
                            },
                        ),
                    };
                    let end = crate::ast::line_start_or_end(s, end_line + 1);
                    (
                        end_line + 1,
                        st,
                        Some(
                            crate::ast::BlockView {
                                kind: crate::ast::BlockKindView::Markdown {
                                    content: normalize_markdown_spec(content),
                                },
                                range: crate::ast::TextRange {
                                    start: start as usize,
                                    end: end as usize,
                                },
                                line: line as usize,
                                config: st.config,
                            },
                        ),
                    )
                },
                None => if starts_image_directive_spec(trimmed) {
                    let (stmt, end_line) = collect_from(
                        s,
                        line,
                        paren_delta_spec(trimmed),
                        trimmed,
                    );
                    let end = crate::ast::line_start_or_end(s, end_line + 1);
                    (end_line + 1, st, match image_directive_spec(stmt) {
                        Some(kind) => Some(
                            crate::ast::BlockView {
                                kind,
                                range: crate::ast::TextRange {
                                    start: start as usize,
                                    end: end as usize,
                                },
                                line: line as usize,
                                config: st.config,
                            },
                        ),
                        None => None,
                    })
                } else {
                    let (stmt, block_config) = split_inline_spec(trimmed, st.config);
                    if is_renderable_math_spec(stmt) {
                        let end = crate::ast::line_start_or_end(s, line + 1);
                        (
                            line + 1,
                            st,
                            Some(
                                crate::ast::BlockView {
                                    kind: crate::ast::BlockKindView::Math { statement: stmt },
                                    range: crate::ast::TextRange {
                                        start: start as usize,
                                        end: end as usize,
                                    },
                                    line: line as usize,
                                    config: block_config,
                                },
                            ),
                        )
                    } else {
                        (line + 1, st, None)
                    }
                },
            }
        },
    }
}

pub proof fn lemma_scan_step_advances(s: Seq<char>, line: int, st: ScanState)
    requires
        0 <= line,
    ensures
        scan_step(s, line, st).0 > line,
        line < line_count_of(s) ==> scan_step(s, line, st).0 <= line_count_of(s) + 1,
{
    reveal(scan_step);
    let text = crate::ast::line_or_empty(s, line);
    let trimmed = trim(text);
    match triple_string_start_spec(trimmed) {
        Some((plen, qc)) => {
            let q = seq![qc, qc, qc];
            let after_open = trimmed.skip(plen + 3);
            lemma_triple_body_ge(
                s,
                q,
                line + 1,
                if after_open.len() > 0 {
                    after_open + seq!['\n']
                } else {
                    seq![]
                },
            );
        },
        None => {
            lemma_collect_from_ge(s, line, paren_delta_spec(trimmed), trimmed);
        },
    }
}

/// The blocks the scanner finds from line `line` on, in document order.
pub open spec fn scan_from(s: Seq<char>, line: int, st: ScanState) -> Seq<crate::ast::BlockView>
    decreases line_count_of(s) + 1 - line,
{
    if line < 0 || line >= line_count_of(s) {
        seq![]
    } else {
        proof {
            lemma_scan_step_advances(s, line, st);
        }
        let (next, st2, b) = scan_step(s, line, st);
        let rest = scan_from(s, next, st2);
        match b {
            Some(x) => seq![x] + rest,
            None => rest,
        }
    }
}

/// The initial scanner state: rendering on, nothing ignored, no configuration.
pub open spec fn initial_scan_state() -> ScanState {
    ScanState {
        disabled: false,
        ignore_next: false,
        config: RenderConfig { auto_name_subscript: None, auto_name_symbol: None },
    }
}

/// The blocks of a source text.
pub open spec fn scan_spec(s: Seq<char>) -> Seq<crate::ast::BlockView> {
    scan_from(s, 0, initial_scan_state())
}

fn collect_call_statement(source: &crate::ast::SourceFile, start_line: usize, first_line: &[char]) -> (r: (Vec<char>, usize))
    requires
        source.wf(),
        start_line < line_count_of(source.source@),
        first_line@.len() <= crate::ast::line_char_end(source.source@, start_line as int)
            - crate::ast::line_char_starts(source.source@)[start_line as int],
    ensures
        (r.0@, r.1 as int) == collect_from(
            source.source@,
            start_line as int,
            paren_delta_spec(first_line@),
            first_line@,
        ),
{
    let ghost s = source.source@;
    let ghost cs = crate::ast::line_char_starts(s);
    let mut statement = subvec(first_line, 0, first_line.len());
    assert(statement@ == first_line@);
    let mut end_line = start_line;
    let mut depth = paren_delta(first_line);
    let count = source.line_count();
    let nchars = source.chars().len();
    proof {
        crate::ast::lemma_line_char_starts_bounds(s);
        crate::ast::lemma_line_char_starts_increasing(s);
    }
    while depth > 0 && end_line < count - 1
        invariant
            source.wf(),
            s == source.source@,
            cs == crate::ast::line_char_starts(s),
            count == cs.len(),
            start_line <= end_line < count,
            nchars == s.len(),
            -(crate::ast::line_char_end(s, end_line as int) - cs[start_line as int]) <= depth
                <= crate::ast::line_char_end(s, end_line as int) - cs[start_line as int],
            collect_from(s, start_line as int, paren_delta_spec(first_line@), first_line@)
                == collect_from(s, end_line as int, depth as int, statement@),
            forall|k: int| 0 <= k < cs.len() ==> 0 <= #[trigger] cs[k] <= s.len(),
            forall|k: int| 0 <= k < cs.len() - 1 ==> #[trigger] cs[k] < cs[k + 1],
        decreases count - end_line,
    {
        end_line = end_line + 1;
        let raw = source.line_chars(end_line);
        let line = trim_chars(&raw);
        let ghost prev = statement@;
        statement.push('\n');
        push_all(&mut statement, &line);
        assert(statement@ == prev + seq!['\n'] + line@);
        proof {
            assert(trim(raw@).len() <= raw@.len()) by {
                crate::text::lemma_trim_len(raw@);
            }
            assert(crate::ast::line_char_end(s, end_line - 1) == cs[end_line as int]);
            assert(raw@.len() <= crate::ast::line_char_end(s, end_line as int) - cs[end_line as int])
                by {
                crate::ast::lemma_line_text_within(s, end_line as int);
            }
        }
        let d = paren_delta(&line);
        depth = depth + d;
    }
    (statement, end_line)
}


/// Reads the lines of a triple-quoted string that did not close on its first line.
fn triple_body(source: &crate::ast::SourceFile, q: &Vec<char>, first: usize, init: Vec<char>) -> (r: (
    Vec<char>,
    usize,
))
    requires
        source.wf(),
        first <= line_count_of(source.source@),
    ensures
        (r.0@, r.1 as int) == triple_body_from(source.source@, q@, first as int, init@),
        first <= r.1 <= line_count_of(source.source@),
{
    let count = source.line_count();
    let mut content = init;
    let mut end_line = first;
    while end_line < count
        invariant
            source.wf(),
            count == line_count_of(source.source@),
            first <= end_line <= count,
            triple_body_from(source.source@, q@, first as int, init@) == triple_body_from(
                source.source@,
                q@,
                end_line as int,
                content@,
            ),
        decreases count - end_line,
    {
        let body = source.line_chars(end_line);
        match find_chars(&body, q) {
            Some(c) => {
                let head = subvec(&body, 0, c);
                assert(head@ == body@.take(c as int));
                push_all(&mut content, &head);
                return (content, end_line);
            },
            None => {
                let ghost prev = content@;
                push_all(&mut content, &body);
                content.push('\n');
                assert(content@ == prev + body@ + seq!['\n']);
                end_line = end_line + 1;
            },
        }
    }
    (content, end_line)
}

/// The byte offset of the first non-blank character of line `line`.
fn first_text_byte_exec(source: &crate::ast::SourceFile, line: usize, text: &Vec<char>, trimmed: &Vec<char>) -> (o: usize)
    requires
        source.wf(),
        line < line_count_of(source.source@),
        text@ == crate::ast::line_or_empty(source.source@, line as int),
        trimmed@ == trim(text@),
    ensures
        o == first_text_byte(source.source@, line as int),
{
    let ghost s = source.source@;
    let k = match find_chars(text, trimmed) {
        Some(k) => k,
        None => 0,
    };
    let base = source.line_start_or_len(line);
    proof {
        crate::ast::lemma_line_text_within(s, line as int);
        crate::ast::lemma_line_byte_starts_bounds(s);
        let a = crate::ast::line_char_starts(s)[line as int];
        assert(text@.take(k as int) == s.subrange(a, a + k));
        crate::text::lemma_utf8_len_split(s, a, a + k);
    }
    let n = crate::text::utf8_len_of_prefix(text, k);
    base + n
}

fn scan_step_exec(source: &crate::ast::SourceFile, line: usize, st: ScanState) -> (r: (
    usize,
    ScanState,
    Option<crate::ast::RenderableBlock>,
))
    requires
        source.wf(),
        line < line_count_of(source.source@),
    ensures
        line < r.0 <= line_count_of(source.source@),
        scan_from(source.source@, r.0 as int, r.1) == scan_from(
            source.source@,
            scan_step(source.source@, line as int, st).0,
            scan_step(source.source@, line as int, st).1,
        ),
        r.1 == scan_step(source.source@, line as int, st).1,
        r.2 matches Some(b) ==> scan_step(source.source@, line as int, st).2 == Some(b@),
        r.2 is None ==> scan_step(source.source@, line as int, st).2 is None,
{
    reveal(scan_step);
    let ghost s = source.source@;
    let count = source.line_count();
    let text = source.line_chars(line);
    let trimmed = trim_chars(&text);
    if let Some(command) = standalone_mathdocs_command(&trimmed) {
        let mut st2 = st;
        if eq_str(&command, "off") {
            st2.disabled = true;
        } else if eq_str(&command, "on") {
            st2.disabled = false;
        } else if eq_str(&command, "ignore") {
            st2.ignore_next = true;
        } else {
            apply_mathdocs_config_command(&mut st2.config, &command);
        }
        return (line + 1, st2, None);
    }
    let hash = ['#'];
    assert(hash@ == seq!['#']);
    if st.disabled || trimmed.len() == 0 || crate::text::starts_with_chars(&trimmed, &hash) {
        return (line + 1, st, None);
    }
    if st.ignore_next {
        let mut st2 = st;
        st2.ignore_next = false;
        return (line + 1, st2, None);
    }
    if indentation(&text) != 0 {
        return (line + 1, st, None);
    }
    let start = first_text_byte_exec(source, line, &text, &trimmed);
    proof {
        crate::ast::lemma_line_text_within(s, line as int);
        crate::text::lemma_trim_len(text@);
    }
    if let Some((plen, qc)) = triple_string_start(&trimmed) {
        let q = vec![qc, qc, qc];
        assert(q@ == seq![qc, qc, qc]);
        proof {
            assert(ascii_lower_seq(trimmed@).len() == trimmed@.len());
        }
        let after_open = subvec(&trimmed, plen + 3, trimmed.len());
        assert(after_open@ == trimmed@.skip(plen + 3));
        let (content, end_line) = match find_chars(&after_open, &q) {
            Some(c) => {
                let head = subvec(&after_open, 0, c);
                assert(head@ == after_open@.take(c as int));
                (head, line)
            },
            None => {
                let mut init: Vec<char> = Vec::new();
                if after_open.len() > 0 {
                    push_all(&mut init, &after_open);
                    init.push('\n');
                    assert(init@ == after_open@ + seq!['\n']);
                } else {
                    assert(init@ == Seq::<char>::empty());
                }
                triple_body(source, &q, line + 1, init)
            },
        };
        let end = if end_line < count {
            source.line_start_or_len(end_line + 1)
        } else {
            source.byte_len()
        };
        let next = if end_line < count {
            end_line + 1
        } else {
            count
        };
        let normalized = normalize_markdown_block(&content);
        let block = crate::ast::RenderableBlock {
            kind: crate::ast::BlockKind::Markdown { content: crate::text::string_of(&normalized) },
            range: crate::ast::TextRange { start, end },
            line,
            config: st.config,
        };
        return (next, st, Some(block));
    }
    if starts_image_directive(&trimmed) {
        let (statement, end_line) = collect_call_statement(source, line, &trimmed);
        proof {
            lemma_collect_from_ge(s, line as int, paren_delta_spec(trimmed@), trimmed@);
        }
        let end = source.line_start_or_len(end_line + 1);
        let b = match image_directive(&statement) {
            Some(kind) => Some(
                crate::ast::RenderableBlock {
                    kind,
                    range: crate::ast::TextRange { start, end },
                    line,
                    config: st.config,
                },
            ),
            None => None,
        };
        return (end_line + 1, st, b);
    }
    let (statement, block_config) = split_inline_mathdocs_command(&trimmed, st.config);
    if is_renderable_math_statement(&statement) {
        let end = source.line_start_or_len(line + 1);
        let block = crate::ast::RenderableBlock {
            kind: crate::ast::BlockKind::Math { statement: crate::text::string_of(&statement) },
            range: crate::ast::TextRange { start, end },
            line,
            config: block_config,
        };
        return (line + 1, st, Some(block));
    }
    (line + 1, st, None)
}

/// The renderable blocks of a source file, in document order.
pub fn scan_renderable_blocks(source: &crate::ast::SourceFile) -> (blocks: Vec<crate::ast::RenderableBlock>)
    requires
        source.wf(),
    ensures
        crate::ast::blocks_view(blocks@) == scan_spec(source.source@),
{
    let ghost s = source.source@;
    let mut blocks: Vec<crate::ast::RenderableBlock> = Vec::new();
    let mut line: usize = 0;
    let mut st = ScanState {
        disabled: false,
        ignore_next: false,
        config: RenderConfig::default(),
    };
    let count = source.line_count();
    while line < count
        invariant
            source.wf(),
            s == source.source@,
            count == line_count_of(s),
            line <= count,
            scan_spec(s) == crate::ast::blocks_view(blocks@) + scan_from(s, line as int, st),
        decreases count - line,
    {
        let (next, st2, b) = scan_step_exec(source, line, st);
        let ghost before = crate::ast::blocks_view(blocks@);
        match b {
            Some(block) => {
                blocks.push(block);
                assert(crate::ast::blocks_view(blocks@) =~= before.push(block@));
                assert(before.push(block@) + scan_from(s, next as int, st2) =~= before + (seq![
                    block@,
                ] + scan_from(s, next as int, st2)));
            },
            None => {},
        }
        line = next;
        st = st2;
    }
    assert(scan_from(s, line as int, st) == Seq::<crate::ast::BlockView>::empty());
    assert(crate::ast::blocks_view(blocks@) + Seq::<crate::ast::BlockView>::empty() == crate::ast::blocks_view(blocks@));
    blocks
}


/// The text handed to the Python parser: each `::query::` symbol lookup replaced by a plain
/// identifier, so that the lookup syntax does not count as a syntax error.
pub open spec fn sanitize_spec(rest: Seq<char>) -> Seq<char>
    decreases rest.len(),
{
    match find(rest, seq![':', ':']) {
        None => rest,
        Some(start) => {
            let after = rest.skip(start + 2);
            match find(after, seq![':', ':']) {
                None => rest,
                Some(end) => {
                    proof {
                        crate::text::lemma_find_in_bounds(rest, seq![':', ':'], 0);
                        crate::text::lemma_find_in_bounds(after, seq![':', ':'], 0);
                    }
                    rest.take(start) + "__mathdocs_symbol__"@ + sanitize_spec(after.skip(end + 2))
                },
            }
        },
    }
}

fn sanitize_symbol_lookups_for_python_parse(source: &[char]) -> (out: Vec<char>)
    ensures
        out@ == sanitize_spec(source@),
{
    let sep = [':', ':'];
    assert(sep@ == seq![':', ':']);
    let mut out: Vec<char> = Vec::new();
    let mut rest = subvec(source, 0, source.len());
    assert(rest@ == source@);
    loop
        invariant
            sep@ == seq![':', ':'],
            sanitize_spec(source@) == out@ + sanitize_spec(rest@),
        decreases rest@.len(),
    {
        let start = match find_chars(&rest, &sep) {
            None => {
                push_all(&mut out, &rest);
                return out;
            },
            Some(st) => st,
        };
        let rlen = rest.len();
        assert(start + 2 <= rlen);
        let after = subvec(&rest, start + 2, rlen);
        assert(after@ == rest@.skip(start + 2));
        let end = match find_chars(&after, &sep) {
            None => {
                push_all(&mut out, &rest);
                return out;
            },
            Some(e) => e,
        };
        let alen = after.len();
        assert(end + 2 <= alen);
        let head = subvec(&rest, 0, start);
        assert(head@ == rest@.take(start as int));
        let ghost prev = out@;
        push_all(&mut out, &head);
        crate::text::push_str(&mut out, "__mathdocs_symbol__");
        let next = subvec(&after, end + 2, alen);
        assert(next@ == after@.skip(end + 2));
        assert(out@ + sanitize_spec(next@) == prev + (head@ + "__mathdocs_symbol__"@
            + sanitize_spec(next@)));
        rest = next;
    }
}

/// The message `rustpython_parser` gives when it does not accept a text as a Python module.
pub uninterp spec fn python_syntax_error(source: Seq<char>, path: Seq<char>) -> Option<Seq<char>>;

/// Parses `source` as a Python module with `rustpython_parser::ast::Suite::parse` and gives the
/// `Display` text of the error, if there is one. The contract only names that outcome: whether
/// a text is valid Python is not stated here.
#[verifier::external_body]
fn python_parse_error(source: &str, path: &str) -> (r: Option<String>)
    ensures
        crate::ast::opt_view(r) == python_syntax_error(source@, path@),
{
    match <rustpython_parser::ast::Suite as rustpython_parser::Parse>::parse(source, path) {
        Ok(_) => None,
        Err(err) => Some(err.to_string()),
    }
}

/// The diagnostics of a syntax check: one error over the first byte when the parser refused
/// the text.
pub open spec fn syntax_diagnostics_spec(syntax_error: Option<Seq<char>>, byte_len: nat) -> Seq<
    crate::ast::DiagnosticView,
> {
    match syntax_error {
        None => seq![],
        Some(m) => seq![
            crate::ast::DiagnosticView {
                code: "mathdocs::syntax"@,
                message: m,
                range: crate::ast::TextRange {
                    start: 0,
                    end: if byte_len < 1 {
                        byte_len as usize
                    } else {
                        1
                    },
                },
                severity: crate::ast::DiagnosticSeverity::Error,
            },
        ],
    }
}

/// The parsed module of a source file, given what the Python syntax check reported.
pub fn parsed_module_from(source: crate::ast::SourceFile, syntax_error: Option<String>) -> (m:
    crate::ast::ParsedModule)
    requires
        source.wf(),
    ensures
        m.source == source,
        crate::ast::blocks_view(m.blocks@) == scan_spec(source.source@),
        crate::ast::diags_view(m.diagnostics@) == syntax_diagnostics_spec(
            crate::ast::opt_view(syntax_error),
            crate::text::utf8_len(source.source@),
        ),
{
    let mut diagnostics: Vec<crate::ast::Diagnostic> = Vec::new();
    if let Some(message) = syntax_error {
        let len = source.byte_len();
        let end = if len < 1 {
            len
        } else {
            1
        };
        diagnostics.push(
            crate::ast::Diagnostic {
                code: "mathdocs::syntax".to_owned(),
                message,
                range: crate::ast::TextRange { start: 0, end },
                severity: crate::ast::DiagnosticSeverity::Error,
            },
        );
    }
    let blocks = scan_renderable_blocks(&source);
    proof {
        assert(crate::ast::diags_view(diagnostics@) =~= syntax_diagnostics_spec(
            crate::ast::opt_view(syntax_error),
            crate::text::utf8_len(source.source@),
        ));
    }
    crate::ast::ParsedModule { source, blocks, diagnostics }
}

/// Parses a Python source file: its blocks, and a syntax diagnostic when the Python parser
/// refuses the text (with symbol lookups replaced by identifiers).
pub fn parse_source(path: &str, source: &str) -> (m: crate::ast::ParsedModule)
    ensures
        m.source.wf(),
        m.source.path@ == path@,
        m.source.source@ == source@,
        crate::ast::blocks_view(m.blocks@) == scan_spec(source@),
        crate::ast::diags_view(m.diagnostics@) == syntax_diagnostics_spec(
            python_syntax_error(sanitize_spec(source@), path@),
            crate::text::utf8_len(source@),
        ),
{
    let file = crate::ast::SourceFile::new(path, source);
    let sanitized = sanitize_symbol_lookups_for_python_parse(file.chars());
    let syntax_source = crate::text::string_of(&sanitized);
    let err = python_parse_error(syntax_source.as_str(), path);
    parsed_module_from(file, err)
}

} // verus!
