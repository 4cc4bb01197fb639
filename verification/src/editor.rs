//! What an editor asks of a document: the `::query` being typed before the cursor, the
//! symbols that match it and the completion text for each, where a `mathdocs` import
//! stands, whether a position lies in a range; and the `line:character` ranges of the
//! command line.
use vstd::prelude::*;
use crate::ast::{offset_at_spec, Position, Range, SourceFile, TextRange};
use crate::metadata::{lookup_table, symbol_lookup_entries, SymbolLookupEntry, SymbolLookupEntryView};
use crate::text::{
    chars_of, contains, join, push_all, push_str, rfind, starts_with, string_of, subvec,
    trim_start, utf8_len,
};

verus! {

/// The `::query` that ends at byte `offset`: the range from the last `::` before it, and the
/// text typed after that `::`; none where `offset` does not end a character, there is no
/// `::` before it, or the query spans a line break.
pub open spec fn lookup_context(s: Seq<char>, offset: int) -> Option<(TextRange, Seq<char>)> {
    if !crate::ast::is_char_offset(s, offset) {
        None
    } else {
        let i = crate::ast::char_index_of_byte(s, offset);
        match rfind(s.take(i), "::"@) {
            None => None,
            Some(j) => {
                let query = s.subrange(j + 2, i);
                if contains(query, "::"@) || contains(query, seq!['\n']) || contains(
                    query,
                    seq!['\r'],
                ) {
                    None
                } else {
                    Some((TextRange { start: utf8_len(s.take(j)) as usize, end: offset as usize }, query))
                }
            },
        }
    }
}

/// The symbol lookup being typed before byte `offset` of `source`, and its replace range.
pub fn symbol_lookup_context(source: &str, offset: usize) -> (r: Option<(TextRange, String)>)
    ensures
        match r {
            Some((range, q)) => lookup_context(source@, offset as int) == Some((range, q@)),
            None => lookup_context(source@, offset as int) is None,
        },
{
    let file = SourceFile::new("", source);
    let chars = chars_of(source);
    let i = file.char_index(offset);
    let here = crate::text::utf8_len_of_prefix(&chars, i);
    if here != offset {
        return None;
    }
    let prefix = subvec(&chars, 0, i);
    let marker = [':', ':'];
    proof {
        reveal_strlit("::");
    }
    assert(marker@ == "::"@);
    let j = match crate::text::rfind_chars(&prefix, &marker) {
        None => return None,
        Some(j) => j,
    };
    proof {
        crate::text::lemma_rfind_occurs(prefix@, marker@, prefix@.len() as int + 1);
        assert(chars@.take(i as int) == prefix@);
    }
    let query = subvec(&chars, j + 2, i);
    let nl = ['\n'];
    let cr = ['\r'];
    assert(nl@ == seq!['\n']);
    assert(cr@ == seq!['\r']);
    if crate::text::find_chars(&query, &marker).is_some() || crate::text::find_chars(
        &query,
        &nl,
    ).is_some() || crate::text::find_chars(&query, &cr).is_some() {
        return None;
    }
    proof {
        crate::text::lemma_utf8_len_prefix_le(chars@, j as int, i as int);
    }
    let start = crate::text::utf8_len_of_prefix(&chars, j);
    Some((TextRange { start, end: offset }, string_of(&query)))
}

/// Whether a lookup entry answers a query: every entry answers the empty query; `/path`
/// matches the start of the entry's `/`-joined path; else an alias must contain the query.
pub open spec fn lookup_matches(e: SymbolLookupEntryView, q: Seq<char>) -> bool {
    if q.len() == 0 {
        true
    } else if q[0] == '/' {
        starts_with(join(e.path, seq!['/']), q.skip(1))
    } else {
        exists|i: int|
            0 <= i < e.aliases.len() && (starts_with(e.aliases[i], q) || contains(
                #[trigger] e.aliases[i],
                q,
            ))
    }
}

fn strings_chars(v: &Vec<String>) -> (r: Vec<Vec<char>>)
    ensures
        crate::metadata::pieces_view(r@) == crate::metadata::strings_view(v@),
{
    let mut r: Vec<Vec<char>> = Vec::new();
    for k in 0..v.len()
        invariant
            r@.len() == k,
            forall|j: int| 0 <= j < k ==> #[trigger] r@[j]@ == v@[j]@,
    {
        r.push(chars_of(v[k].as_str()));
    }
    assert(crate::metadata::pieces_view(r@) =~= crate::metadata::strings_view(v@));
    r
}

/// Whether the lookup entry answers the query typed after `::`.
pub fn symbol_lookup_matches(entry: &SymbolLookupEntry, query: &str) -> (r: bool)
    ensures
        r == lookup_matches(entry@, query@),
{
    let q = chars_of(query);
    if q.len() == 0 {
        return true;
    }
    if q[0] == '/' {
        let parts = strings_chars(&entry.path);
        let sep = ['/'];
        assert(sep@ == seq!['/']);
        let path = crate::text::join_chars(&parts, &sep);
        assert(parts@.map_values(|p: Vec<char>| p@) =~= crate::metadata::pieces_view(parts@));
        let rest = subvec(&q, 1, q.len());
        assert(rest@ == q@.skip(1));
        return crate::text::starts_with_chars(&path, &rest);
    }
    let aliases = strings_chars(&entry.aliases);
    let ghost av = crate::metadata::strings_view(entry.aliases@);
    for k in 0..aliases.len()
        invariant
            crate::metadata::pieces_view(aliases@) == av,
            av == entry@.aliases,
            q@ == query@,
            q@.len() > 0,
            q@[0] != '/',
            forall|i: int| 0 <= i < k ==> !(starts_with(av[i], q@) || contains(#[trigger] av[i], q@)),
    {
        assert(av[k as int] == aliases@[k as int]@);
        if crate::text::starts_with_chars(&aliases[k], &q) || crate::text::find_chars(
            &aliases[k],
            &q,
        ).is_some() {
            return true;
        }
    }
    false
}

/// The entries of `e` that answer `q`, in order.
pub open spec fn matching(e: Seq<SymbolLookupEntryView>, q: Seq<char>) -> Seq<SymbolLookupEntryView>
    decreases e.len(),
{
    if e.len() == 0 {
        seq![]
    } else {
        let rest = matching(e.drop_last(), q);
        if lookup_matches(e.last(), q) {
            rest.push(e.last())
        } else {
            rest
        }
    }
}

/// The known symbols that answer a lookup query, in table order.
pub fn completion_entries(query: &str) -> (r: Vec<SymbolLookupEntry>)
    ensures
        r@.map_values(|e: SymbolLookupEntry| e@) == matching(lookup_table(), query@),
{
    let all = symbol_lookup_entries();
    let ghost tv = lookup_table();
    let mut r: Vec<SymbolLookupEntry> = Vec::new();
    assert(tv.take(0) =~= Seq::<SymbolLookupEntryView>::empty());
    assert(r@.map_values(|e: SymbolLookupEntry| e@) =~= Seq::<SymbolLookupEntryView>::empty());
    for k in 0..all.len()
        invariant
            all@.map_values(|e: SymbolLookupEntry| e@) == tv,
            tv == lookup_table(),
            r@.map_values(|e: SymbolLookupEntry| e@) == matching(tv.take(k as int), query@),
    {
        assert(tv.take(k + 1).drop_last() =~= tv.take(k as int));
        assert(tv.take(k + 1).last() == all@[k as int]@);
        if symbol_lookup_matches(&all[k], query) {
            let ghost before = r@.map_values(|e: SymbolLookupEntry| e@);
            let e = all[k].duplicate();
            r.push(e);
            assert(r@.map_values(|e: SymbolLookupEntry| e@) =~= before.push(all@[k as int]@));
        }
    }
    assert(tv.take(all@.len() as int) =~= tv);
    r
}

/// The texts of a completion item for a lookup entry.
#[derive(Debug, Clone)]
pub struct CompletionText {
    pub label: String,
    pub detail: String,
    pub filter_text: String,
    pub insert_text: String,
}

/// The entry's path written `/greek/alpha`.
pub open spec fn namespaced(e: SymbolLookupEntryView) -> Seq<char> {
    seq!['/'] + join(e.path, seq!['/'])
}

/// The entry's first alias, or nothing.
pub open spec fn first_alias(e: SymbolLookupEntryView) -> Seq<char> {
    if e.aliases.len() > 0 {
        e.aliases[0]
    } else {
        seq![]
    }
}

/// The label (`::/path::` for a path query, else `::alias::`), the detail (symbol and
/// description), the filter text (alias, path and symbol) and the text that replaces the
/// query.
pub open spec fn completion_spec(e: SymbolLookupEntryView, q: Seq<char>) -> (Seq<char>, Seq<char>, Seq<char>, Seq<char>) {
    (
        "::"@ + (if starts_with(q, seq!['/']) {
            namespaced(e)
        } else {
            first_alias(e)
        }) + "::"@,
        e.display_symbol + seq![' '] + e.description,
        first_alias(e) + seq![' '] + namespaced(e) + seq![' '] + e.display_symbol,
        e.insert_text,
    )
}

/// The completion texts of a lookup entry for the query typed after `::`.
pub fn completion_text(entry: &SymbolLookupEntry, query: &str) -> (c: CompletionText)
    ensures
        (c.label@, c.detail@, c.filter_text@, c.insert_text@) == completion_spec(entry@, query@),
{
    let parts = strings_chars(&entry.path);
    let sep = ['/'];
    assert(sep@ == seq!['/']);
    let joined = crate::text::join_chars(&parts, &sep);
    assert(parts@.map_values(|p: Vec<char>| p@) =~= crate::metadata::pieces_view(parts@));
    let mut ns: Vec<char> = Vec::new();
    ns.push('/');
    push_all(&mut ns, &joined);
    assert(ns@ =~= namespaced(entry@));
    let alias: Vec<char> = if entry.aliases.len() > 0 {
        chars_of(entry.aliases[0].as_str())
    } else {
        Vec::new()
    };
    assert(alias@ == first_alias(entry@));
    let q = chars_of(query);
    let slash = ['/'];
    assert(slash@ == seq!['/']);
    let mut label = chars_of("::");
    if crate::text::starts_with_chars(&q, &slash) {
        push_all(&mut label, &ns);
    } else {
        push_all(&mut label, &alias);
    }
    push_str(&mut label, "::");
    let mut detail = chars_of(entry.display_symbol.as_str());
    detail.push(' ');
    push_str(&mut detail, entry.description.as_str());
    let mut filter = alias;
    filter.push(' ');
    push_all(&mut filter, &ns);
    filter.push(' ');
    push_str(&mut filter, entry.display_symbol.as_str());
    assert(detail@ =~= entry@.display_symbol + seq![' '] + entry@.description);
    assert(filter@ =~= first_alias(entry@) + seq![' '] + namespaced(entry@) + seq![' ']
        + entry@.display_symbol);
    CompletionText {
        label: string_of(&label),
        detail: string_of(&detail),
        filter_text: string_of(&filter),
        insert_text: entry.insert_text.clone(),
    }
}

/// An import of `mathdocs`: `import mathdocs`, `import mathdocs as ...` or
/// `from mathdocs import ...`.
pub open spec fn is_import_line(t: Seq<char>) -> bool {
    t == "import mathdocs"@ || starts_with(t, "import mathdocs as "@) || starts_with(
        t,
        "from mathdocs import "@,
    )
}

/// The range of the first import line from line `k` on: from its first non-blank byte to
/// its end (line and columns as `u32`).
pub open spec fn import_range_from(ls: Seq<Seq<char>>, k: int) -> Option<Range>
    decreases ls.len() - k,
{
    if k < 0 || k >= ls.len() {
        None
    } else {
        let line = ls[k];
        let t = trim_start(line);
        if is_import_line(t) {
            Some(
                Range {
                    start: Position {
                        line: k as u32,
                        character: (utf8_len(line) - utf8_len(t)) as u32,
                    },
                    end: Position { line: k as u32, character: utf8_len(line) as u32 },
                },
            )
        } else {
            import_range_from(ls, k + 1)
        }
    }
}

fn utf8_len_wide(s: &[char]) -> (n: u128)
    ensures
        n == utf8_len(s@),
{
    let mut n: u128 = 0;
    for k in 0..s.len()
        invariant
            n == utf8_len(s@.take(k as int)),
            k <= s@.len(),
            n <= 4 * k,
    {
        assert(s@.take(k + 1).drop_last() =~= s@.take(k as int));
        n = n + crate::text::utf8_width_of(s[k]) as u128;
    }
    assert(s@.take(s@.len() as int) =~= s@);
    n
}

/// The range of the first line of `text` that imports `mathdocs`.
pub fn mathdocs_import_range(text: &str) -> (r: Option<Range>)
    ensures
        r == import_range_from(crate::scan::lines(text@), 0),
{
    let chars = chars_of(text);
    let ls = crate::scan::lines_of(&chars);
    let ghost lv = crate::scan::lines(text@);
    let mut k: usize = 0;
    while k < ls.len()
        invariant
            k <= ls@.len(),
            ls@.len() == lv.len(),
            forall|j: int| 0 <= j < ls@.len() ==> #[trigger] ls@[j]@ == lv[j],
            import_range_from(lv, 0) == import_range_from(lv, k as int),
            lv == crate::scan::lines(text@),
        decreases ls@.len() - k,
    {
        let line = &ls[k];
        let t = crate::text::trim_start_chars(line);
        assert(ls@[k as int]@ == lv[k as int]);
        let hit = crate::text::eq_str(&t, "import mathdocs") || crate::text::starts_with_str(
            &t,
            "import mathdocs as ",
        ) || crate::text::starts_with_str(&t, "from mathdocs import ");
        if hit {
            let total = utf8_len_wide(line);
            let rest = utf8_len_wide(&t);
            proof {
                let a = crate::text::lead_ws_from(line@, 0);
                crate::text::lemma_lead_ge(line@, 0);
                crate::text::lemma_utf8_len_split(line@, a, line@.len() as int);
                assert(line@.take(line@.len() as int) =~= line@);
                assert(line@.subrange(a, line@.len() as int) =~= t@);
            }
            let lead = total - rest;
            return Some(
                Range {
                    start: Position { line: k as u32, character: lead as u32 },
                    end: Position { line: k as u32, character: total as u32 },
                },
            );
        }
        k = k + 1;
    }
    None
}

/// `a` is at or before `b`: by line, then by character.
pub open spec fn position_le(a: Position, b: Position) -> bool {
    a.line < b.line || (a.line == b.line && a.character <= b.character)
}

/// Whether `position` lies in `range`, both ends included.
pub fn contains_position(range: Range, position: Position) -> (r: bool)
    ensures
        r == (position_le(range.start, position) && position_le(position, range.end)),
{
    let after_start = range.start.line < position.line || (range.start.line == position.line
        && range.start.character <= position.character);
    let before_end = position.line < range.end.line || (position.line == range.end.line
        && position.character <= range.end.character);
    after_start && before_end
}

/// Why a number did not parse.
#[derive(Debug, Clone, Copy, PartialEq, Eq, Structural)]
pub enum NumberError {
    Empty,
    InvalidDigit,
    PosOverflow,
}

/// Why a command-line range or position did not parse.
#[derive(Debug, Clone, Copy, PartialEq, Eq, Structural)]
pub enum RangeError {
    /// The range has no `-`.
    RangeFormat,
    /// A position has no `:`.
    PositionFormat,
    /// A line or column is not a `u32`.
    Number(NumberError),
}

impl RangeError {
    /// The message of the error.
    pub fn message(&self) -> (m: String)
        ensures
            m@ == range_error_text(*self),
    {
        match self {
            RangeError::RangeFormat => "range must be formatted as start_line:start_col-end_line:end_col".to_owned(),
            RangeError::PositionFormat => "position must be formatted as line:character".to_owned(),
            RangeError::Number(NumberError::Empty) => "cannot parse integer from empty string".to_owned(),
            RangeError::Number(NumberError::InvalidDigit) => "invalid digit found in string".to_owned(),
            RangeError::Number(NumberError::PosOverflow) => "number too large to fit in target type".to_owned(),
        }
    }
}

pub open spec fn range_error_text(e: RangeError) -> Seq<char> {
    match e {
        RangeError::RangeFormat => "range must be formatted as start_line:start_col-end_line:end_col"@,
        RangeError::PositionFormat => "position must be formatted as line:character"@,
        RangeError::Number(NumberError::Empty) => "cannot parse integer from empty string"@,
        RangeError::Number(NumberError::InvalidDigit) => "invalid digit found in string"@,
        RangeError::Number(NumberError::PosOverflow) => "number too large to fit in target type"@,
    }
}

/// Decimal digits from `i` on, added to `acc`, as `u32` parsing reads them: the first
/// character that is not a digit, or the first digit that takes the value past `u32::MAX`,
/// is the error.
pub open spec fn u32_scan(d: Seq<char>, i: int, acc: int) -> Result<u32, NumberError>
    decreases d.len() - i,
{
    if i < 0 || i >= d.len() {
        Ok(acc as u32)
    } else if !crate::text::is_ascii_digit(d[i]) {
        Err(NumberError::InvalidDigit)
    } else {
        let v = acc * 10 + (d[i] as int - '0' as int);
        if v > u32::MAX {
            Err(NumberError::PosOverflow)
        } else {
            u32_scan(d, i + 1, v)
        }
    }
}

/// `u32::from_str`: an optional `+`, then decimal digits.
pub open spec fn parse_u32(s: Seq<char>) -> Result<u32, NumberError> {
    if s.len() == 0 {
        Err(NumberError::Empty)
    } else if s[0] == '+' {
        if s.len() == 1 {
            Err(NumberError::InvalidDigit)
        } else {
            u32_scan(s, 1, 0)
        }
    } else {
        u32_scan(s, 0, 0)
    }
}

fn parse_u32_chars(s: &[char]) -> (r: Result<u32, NumberError>)
    ensures
        r == parse_u32(s@),
{
    if s.len() == 0 {
        return Err(NumberError::Empty);
    }
    let mut i: usize = 0;
    if s[0] == '+' {
        if s.len() == 1 {
            return Err(NumberError::InvalidDigit);
        }
        i = 1;
    }
    let mut acc: u32 = 0;
    while i < s.len()
        invariant
            i <= s@.len(),
            parse_u32(s@) == u32_scan(s@, i as int, acc as int),
        decreases s@.len() - i,
    {
        let c = s[i];
        if !crate::text::is_ascii_digit_char(c) {
            return Err(NumberError::InvalidDigit);
        }
        let d = (c as u32) - ('0' as u32);
        let v = match acc.checked_mul(10) {
            Some(m) => m.checked_add(d),
            None => None,
        };
        match v {
            Some(x) => {
                acc = x;
            },
            None => {
                return Err(NumberError::PosOverflow);
            },
        }
        i = i + 1;
    }
    Ok(acc)
}

/// The split of `s` at the first `c`.
pub open spec fn split_once(s: Seq<char>, c: char) -> Option<(Seq<char>, Seq<char>)> {
    match crate::text::find(s, seq![c]) {
        Some(k) => Some((s.take(k), s.skip(k + 1))),
        None => None,
    }
}

fn split_once_chars(s: &[char], c: char) -> (r: Option<(Vec<char>, Vec<char>)>)
    ensures
        match r {
            Some((a, b)) => split_once(s@, c) == Some((a@, b@)),
            None => split_once(s@, c) is None,
        },
{
    let pat = [c];
    let n = s.len();
    assert(pat@ == seq![c]);
    match crate::text::find_chars(s, &pat) {
        Some(k) => Some((subvec(s, 0, k), subvec(s, k + 1, n))),
        None => None,
    }
}

/// One less, but not below zero.
pub open spec fn minus_one(x: u32) -> u32 {
    if x == 0 {
        0
    } else {
        (x - 1) as u32
    }
}

/// A one-based `line:character` position as a zero-based one.
pub open spec fn position_spec(v: Seq<char>) -> Result<Position, RangeError> {
    match split_once(v, ':') {
        None => Err(RangeError::PositionFormat),
        Some((l, c)) => match parse_u32(l) {
            Err(e) => Err(RangeError::Number(e)),
            Ok(line) => match parse_u32(c) {
                Err(e) => Err(RangeError::Number(e)),
                Ok(character) => Ok(
                    Position { line: minus_one(line), character: minus_one(character) },
                ),
            },
        },
    }
}

fn parse_position_chars(v: &[char]) -> (r: Result<Position, RangeError>)
    ensures
        r == position_spec(v@),
{
    let (l, c) = match split_once_chars(v, ':') {
        None => return Err(RangeError::PositionFormat),
        Some(p) => p,
    };
    let line = match parse_u32_chars(&l) {
        Err(e) => return Err(RangeError::Number(e)),
        Ok(x) => x,
    };
    let character = match parse_u32_chars(&c) {
        Err(e) => return Err(RangeError::Number(e)),
        Ok(x) => x,
    };
    Ok(
        Position {
            line: if line == 0 {
                0
            } else {
                line - 1
            },
            character: if character == 0 {
                0
            } else {
                character - 1
            },
        },
    )
}

/// Parses a one-based `line:character` position into a zero-based one.
pub fn parse_position(value: &str) -> (r: Result<Position, RangeError>)
    ensures
        r == position_spec(value@),
{
    let v = chars_of(value);
    parse_position_chars(&v)
}

/// The byte range that a `start_line:start_col-end_line:end_col` range selects in `source`.
pub open spec fn line_range_spec(source: Seq<char>, v: Seq<char>) -> Result<TextRange, RangeError> {
    match split_once(v, '-') {
        None => Err(RangeError::RangeFormat),
        Some((a, b)) => match position_spec(a) {
            Err(e) => Err(e),
            Ok(start) => match position_spec(b) {
                Err(e) => Err(e),
                Ok(end) => Ok(
                    TextRange {
                        start: offset_at_spec(source, start),
                        end: offset_at_spec(source, end),
                    },
                ),
            },
        },
    }
}

/// Parses a one-based `start_line:start_col-end_line:end_col` range into byte offsets of
/// `source`.
pub fn parse_line_range(source: &str, value: &str) -> (r: Result<TextRange, RangeError>)
    ensures
        r == line_range_spec(source@, value@),
{
    let v = chars_of(value);
    let (a, b) = match split_once_chars(&v, '-') {
        None => return Err(RangeError::RangeFormat),
        Some(p) => p,
    };
    let start = match parse_position_chars(&a) {
        Err(e) => return Err(e),
        Ok(p) => p,
    };
    let end = match parse_position_chars(&b) {
        Err(e) => return Err(e),
        Ok(p) => p,
    };
    let file = SourceFile::new("<range>", source);
    Ok(TextRange { start: file.offset_at(start), end: file.offset_at(end) })
}

} // verus!
