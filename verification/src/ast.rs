//! The document model: byte ranges, line/character positions, diagnostics, the
//! source file with its line table, and the blocks that the scanner finds.
use vstd::prelude::*;
use vstd::utf8::*;
use crate::text::{chars_of, string_of, utf8_len, utf8_width_of};

verus! {

/// A half-open-by-convention byte range of the source text.
#[derive(Debug, Clone, Copy, PartialEq, Eq, Structural)]
pub struct TextRange {
    pub start: usize,
    pub end: usize,
}

impl TextRange {
    /// `offset` lies in `[start, end]`, both ends included.
    pub open spec fn holds(self, offset: int) -> bool {
        self.start <= offset && offset <= self.end
    }

    /// The two ranges share a byte: each starts before the other ends.
    pub open spec fn meets(self, other: TextRange) -> bool {
        self.start < other.end && other.start < self.end
    }

    /// Whether `offset` lies in `[start, end]` (both ends included).
    pub fn contains(&self, offset: usize) -> (res: bool)
        ensures
            res == self.holds(offset as int),
    {
        self.start <= offset && offset <= self.end
    }

    /// Whether the two ranges share at least one byte.
    pub fn overlaps(&self, other: TextRange) -> (res: bool)
        ensures
            res == self.meets(other),
    {
        self.start < other.end && other.start < self.end
    }
}

/// A zero-based line and a byte column within that line.
#[derive(Debug, Clone, Copy, PartialEq, Eq, Structural)]
pub struct Position {
    pub line: u32,
    pub character: u32,
}

#[derive(Debug, Clone, Copy, PartialEq, Eq, Structural)]
pub struct Range {
    pub start: Position,
    pub end: Position,
}

#[derive(Debug, Clone, Copy, PartialEq, Eq, Structural)]
pub enum DiagnosticSeverity {
    Error,
    Warning,
    Information,
}

#[derive(Debug, Clone)]
pub struct Diagnostic {
    pub code: String,
    pub message: String,
    pub range: TextRange,
    pub severity: DiagnosticSeverity,
}

/// The mathematical content of a diagnostic.
pub struct DiagnosticView {
    pub code: Seq<char>,
    pub message: Seq<char>,
    pub range: TextRange,
    pub severity: DiagnosticSeverity,
}

impl View for Diagnostic {
    type V = DiagnosticView;

    open spec fn view(&self) -> DiagnosticView {
        DiagnosticView {
            code: self.code@,
            message: self.message@,
            range: self.range,
            severity: self.severity,
        }
    }
}

impl Diagnostic {
    /// A diagnostic built from a code and a message.
    pub fn make(code: &str, message: Vec<char>, range: TextRange, severity: DiagnosticSeverity) -> (d: Diagnostic)
        ensures
            d@ == (DiagnosticView { code: code@, message: message@, range, severity }),
    {
        Diagnostic { code: code.to_owned(), message: string_of(&message), range, severity }
    }

    /// A copy with the same view.
    pub fn duplicate(&self) -> (d: Diagnostic)
        ensures
            d@ == self@,
    {
        Diagnostic {
            code: self.code.clone(),
            message: self.message.clone(),
            range: self.range,
            severity: self.severity,
        }
    }
}

/// The views of a list of diagnostics.
pub open spec fn diags_view(d: Seq<Diagnostic>) -> Seq<DiagnosticView> {
    d.map_values(|x: Diagnostic| x@)
}

/// Appends copies of `more` to `out`.
pub fn extend_diagnostics(out: &mut Vec<Diagnostic>, more: &Vec<Diagnostic>)
    ensures
        diags_view(final(out)@) == diags_view(old(out)@) + diags_view(more@),
{
    let ghost start = out@;
    for i in 0..more.len()
        invariant
            out@.len() == start.len() + i,
            forall|k: int| 0 <= k < start.len() ==> #[trigger] out@[k]@ == start[k]@,
            forall|k: int| 0 <= k < i ==> #[trigger] out@[start.len() + k]@ == more@[k]@,
    {
        out.push(more[i].duplicate());
    }
    assert(diags_view(out@) =~= diags_view(start) + diags_view(more@)) by {
        assert forall|k: int| 0 <= k < out@.len() implies diags_view(out@)[k] == (diags_view(start)
            + diags_view(more@))[k] by {
            if k >= start.len() {
                assert(out@[start.len() + (k - start.len())]@ == more@[k - start.len()]@);
            }
        }
    }
}

/// The character index at which each line starts: 0, and one past every `'\n'`.
pub open spec fn line_char_starts(s: Seq<char>) -> Seq<int>
    decreases s.len(),
{
    if s.len() == 0 {
        seq![0]
    } else if s.last() == '\n' {
        line_char_starts(s.drop_last()).push(s.len() as int)
    } else {
        line_char_starts(s.drop_last())
    }
}

/// A sequence of machine integers as mathematical integers.
pub open spec fn as_ints(v: Seq<usize>) -> Seq<int> {
    v.map_values(|x: usize| x as int)
}

/// The byte offset at which each line starts.
pub open spec fn line_byte_starts(s: Seq<char>) -> Seq<int> {
    line_char_starts(s).map_values(|k: int| utf8_len(s.take(k)) as int)
}

/// The end, in characters, of line `line`: the start of the next line, or the text's end.
pub open spec fn line_char_end(s: Seq<char>, line: int) -> int {
    let starts = line_char_starts(s);
    if line + 1 < starts.len() {
        starts[line + 1]
    } else {
        s.len() as int
    }
}

/// The end, in bytes, of line `line`.
pub open spec fn line_byte_end(s: Seq<char>, line: int) -> int {
    let starts = line_byte_starts(s);
    if line + 1 < starts.len() {
        starts[line + 1]
    } else {
        utf8_len(s) as int
    }
}

/// `s` without its trailing `'\r'` and `'\n'` characters.
pub open spec fn trim_crlf_end_from(s: Seq<char>, j: int) -> int
    decreases j,
{
    if 0 < j <= s.len() && (s[j - 1] == '\r' || s[j - 1] == '\n') {
        trim_crlf_end_from(s, j - 1)
    } else {
        j
    }
}

pub open spec fn trim_crlf_end(s: Seq<char>) -> Seq<char> {
    s.take(trim_crlf_end_from(s, s.len() as int))
}

/// The text of line `line` without its line terminator, or `None` past the last line.
pub open spec fn line_text_spec(s: Seq<char>, line: int) -> Option<Seq<char>> {
    let starts = line_char_starts(s);
    if 0 <= line < starts.len() {
        Some(trim_crlf_end(s.subrange(starts[line], line_char_end(s, line))))
    } else {
        None
    }
}

/// The text of line `line`, or the empty text past the last line.
pub open spec fn line_or_empty(s: Seq<char>, line: int) -> Seq<char> {
    match line_text_spec(s, line) {
        Some(t) => t,
        None => seq![],
    }
}

pub proof fn lemma_trim_crlf_le(s: Seq<char>, j: int)
    requires
        0 <= j <= s.len(),
    ensures
        0 <= trim_crlf_end_from(s, j) <= j,
    decreases j,
{
    if 0 < j && (s[j - 1] == '\r' || s[j - 1] == '\n') {
        lemma_trim_crlf_le(s, j - 1);
    }
}

/// A line's text lies within the line.
pub proof fn lemma_line_text_within(s: Seq<char>, k: int)
    requires
        0 <= k < line_char_starts(s).len(),
    ensures
        line_or_empty(s, k).len() <= line_char_end(s, k) - line_char_starts(s)[k],
        line_char_starts(s)[k] <= line_char_end(s, k) <= s.len(),
        line_or_empty(s, k) == s.subrange(
            line_char_starts(s)[k],
            line_char_starts(s)[k] + line_or_empty(s, k).len(),
        ),
{
    lemma_line_char_starts_bounds(s);
    lemma_line_char_starts_increasing(s);
    let a = line_char_starts(s)[k];
    let e = line_char_end(s, k);
    if k + 1 < line_char_starts(s).len() {
        assert(a < line_char_starts(s)[k + 1]);
    }
    let seg = s.subrange(a, e);
    lemma_trim_crlf_le(seg, seg.len() as int);
    let t = trim_crlf_end(seg);
    assert(t == s.subrange(a, a + t.len()));
}

/// The byte offset where line `line` starts, or the text's byte length past the last line.
pub open spec fn line_start_or_end(s: Seq<char>, line: int) -> int {
    if 0 <= line < line_byte_starts(s).len() {
        line_byte_starts(s)[line]
    } else {
        utf8_len(s) as int
    }
}

/// The number of characters of `s` whose UTF-8 bytes lie before byte offset `b`.
pub open spec fn char_index_from(s: Seq<char>, b: int, k: int) -> int
    decreases s.len() - k,
{
    if 0 <= k < s.len() && (utf8_len(s.take(k)) as int) < b {
        char_index_from(s, b, k + 1)
    } else {
        k
    }
}

pub open spec fn char_index_of_byte(s: Seq<char>, b: int) -> int {
    char_index_from(s, b, 0)
}

/// Whether byte offset `b` is the start of a character of `s` or its end.
pub open spec fn is_char_offset(s: Seq<char>, b: int) -> bool {
    utf8_len(s.take(char_index_of_byte(s, b))) == b
}

/// The line containing byte offset `o`: the last line that starts at or before `o`.
pub open spec fn is_line_of(starts: Seq<int>, o: int, line: int) -> bool {
    &&& 0 <= line < starts.len()
    &&& starts[line] <= o
    &&& (line + 1 < starts.len() ==> o < starts[line + 1])
}

pub proof fn lemma_encode_utf8_append(a: Seq<char>, b: Seq<char>)
    ensures
        encode_utf8(a + b) == encode_utf8(a) + encode_utf8(b),
    decreases a.len(),
{
    if a.len() == 0 {
        assert(a + b == b);
        assert(encode_utf8(a) == Seq::<u8>::empty());
        assert(encode_utf8(a) + encode_utf8(b) == encode_utf8(b));
    } else {
        lemma_encode_utf8_append(a.drop_first(), b);
        assert((a + b).drop_first() == a.drop_first() + b);
        assert((a + b)[0] == a[0]);
        assert(encode_utf8(a + b) == encode_scalar(a[0] as u32) + encode_utf8(a.drop_first() + b));
    }
}

pub proof fn lemma_encode_utf8_len(s: Seq<char>)
    ensures
        encode_utf8(s).len() == utf8_len(s),
    decreases s.len(),
{
    if s.len() > 0 {
        let init = s.drop_last();
        let last = s.last();
        lemma_encode_utf8_len(init);
        lemma_encode_utf8_append(init, seq![last]);
        assert(init + seq![last] == s);
        assert(seq![last].drop_first() == Seq::<char>::empty());
        assert(encode_utf8(seq![last]) == encode_scalar(last as u32) + encode_utf8(
            Seq::<char>::empty(),
        ));
        char_is_scalar(last);
    }
}

pub proof fn lemma_utf8_len_prefix_mono(s: Seq<char>, i: int, j: int)
    requires
        0 <= i <= j <= s.len(),
    ensures
        utf8_len(s.take(i)) + (j - i) <= utf8_len(s.take(j)),
        i < j ==> utf8_len(s.take(i)) < utf8_len(s.take(j)),
    decreases j - i,
{
    if i < j {
        lemma_utf8_len_prefix_mono(s, i, j - 1);
        assert(s.take(j).drop_last() == s.take(j - 1));
    }
}

/// The line-start table of `s`, in characters and in bytes.
fn build_line_starts(s: &[char], total: usize) -> (res: (Vec<usize>, Vec<usize>))
    requires
        utf8_len(s@) == total,
    ensures
        as_ints(res.0@) == line_char_starts(s@),
        as_ints(res.1@) == line_byte_starts(s@),
{
    let mut chars: Vec<usize> = Vec::new();
    let mut bytes: Vec<usize> = Vec::new();
    chars.push(0);
    bytes.push(0);
    let mut acc: usize = 0;
    let mut i: usize = 0;
    proof {
        assert(s@.take(0) == Seq::<char>::empty());
        lemma_utf8_len_prefix_mono(s@, 0, s@.len() as int);
        assert(s@.take(s@.len() as int) == s@);
    }
    while i < s.len()
        invariant
            i <= s@.len(),
            utf8_len(s@) == total,
            acc == utf8_len(s@.take(i as int)),
            chars@.len() == line_char_starts(s@.take(i as int)).len(),
            bytes@.len() == chars@.len(),
            forall|k: int|
                0 <= k < chars@.len() ==> #[trigger] chars@[k] == line_char_starts(
                    s@.take(i as int),
                )[k],
            forall|k: int|
                0 <= k < bytes@.len() ==> #[trigger] bytes@[k] == utf8_len(
                    s@.take(chars@[k] as int),
                ),
            forall|k: int| 0 <= k < chars@.len() ==> #[trigger] chars@[k] <= i,
        decreases s.len() - i,
    {
        proof {
            lemma_utf8_len_prefix_mono(s@, i + 1, s@.len() as int);
            assert(s@.take(s@.len() as int) == s@);
            assert(s@.take(i + 1).drop_last() == s@.take(i as int));
        }
        acc = acc + utf8_width_of(s[i]);
        i = i + 1;
        if s[i - 1] == '\n' {
            chars.push(i);
            bytes.push(acc);
        }
        proof {
            let t = s@.take(i as int);
            assert(t.last() == s@[i - 1]);
            assert forall|k: int| 0 <= k < bytes@.len() implies #[trigger] bytes@[k] == utf8_len(
                s@.take(chars@[k] as int),
            ) by {
                if k == bytes@.len() - 1 && s@[i - 1] == '\n' {
                    assert(chars@[k] == i);
                }
            }
        }
    }
    proof {
        assert(s@.take(i as int) == s@);
        assert(as_ints(chars@) =~= line_char_starts(s@));
        assert(as_ints(bytes@) =~= line_byte_starts(s@));
    }
    (chars, bytes)
}

#[derive(Debug, Clone)]
pub struct SourceFile {
    pub path: String,
    pub source: String,
    /// The characters of `source`.
    pub chars: Vec<char>,
    /// The byte offset at which each line starts.
    pub line_starts: Vec<usize>,
    /// The character index at which each line starts.
    pub line_char_starts: Vec<usize>,
}

impl SourceFile {
    /// The line tables agree with the text.
    pub open spec fn wf(&self) -> bool {
        &&& self.chars@ == self.source@
        &&& utf8_len(self.source@) <= usize::MAX
        &&& as_ints(self.line_char_starts@) == line_char_starts(self.source@)
        &&& as_ints(self.line_starts@) == line_byte_starts(self.source@)
    }

    /// What `wf` gives, entry by entry.
    pub proof fn lemma_tables(&self)
        requires
            self.wf(),
        ensures
            self.line_starts@.len() == line_char_starts(self.source@).len(),
            self.line_char_starts@.len() == line_char_starts(self.source@).len(),
            line_byte_starts(self.source@).len() == line_char_starts(self.source@).len(),
            forall|k: int|
                0 <= k < self.line_starts@.len() ==> #[trigger] self.line_starts@[k] as int
                    == line_byte_starts(self.source@)[k],
            forall|k: int|
                0 <= k < self.line_char_starts@.len() ==> #[trigger] self.line_char_starts@[k] as int
                    == line_char_starts(self.source@)[k],
    {
        assert(as_ints(self.line_starts@).len() == self.line_starts@.len());
        assert(as_ints(self.line_char_starts@).len() == self.line_char_starts@.len());
        assert forall|k: int| 0 <= k < self.line_starts@.len() implies #[trigger] self.line_starts@[k] as int
            == line_byte_starts(self.source@)[k] by {
            assert(as_ints(self.line_starts@)[k] == self.line_starts@[k] as int);
        }
        assert forall|k: int| 0 <= k < self.line_char_starts@.len() implies #[trigger] self.line_char_starts@[k] as int
            == line_char_starts(self.source@)[k] by {
            assert(as_ints(self.line_char_starts@)[k] == self.line_char_starts@[k] as int);
        }
    }

    /// The characters of the source text, as a slice.
    pub fn chars(&self) -> (c: &[char])
        requires
            self.wf(),
        ensures
            c@ == self.source@,
    {
        self.chars.as_slice()
    }

    /// A source file with its line table.
    pub fn new(path: &str, source: &str) -> (f: SourceFile)
        ensures
            f.wf(),
            f.path@ == path@,
            f.source@ == source@,
    {
        let chars = chars_of(source);
        let bytes = source.as_bytes();
        let total = bytes.len();
        proof {
            lemma_encode_utf8_len(source@);
        }
        let (cs, bs) = build_line_starts(&chars, total);
        SourceFile {
            path: path.to_owned(),
            source: source.to_owned(),
            chars,
            line_starts: bs,
            line_char_starts: cs,
        }
    }

    /// The number of lines: one more than the number of `'\n'`.
    pub fn line_count(&self) -> (n: usize)
        requires
            self.wf(),
        ensures
            n == line_char_starts(self.source@).len(),
    {
        proof {
            self.lemma_tables();
        }
        self.line_starts.len()
    }

    /// The byte offset at which line `line` starts.
    pub fn line_start(&self, line: usize) -> (r: Option<usize>)
        requires
            self.wf(),
        ensures
            line < line_char_starts(self.source@).len() ==> r == Some(
                line_byte_starts(self.source@)[line as int] as usize,
            ),
            line >= line_char_starts(self.source@).len() ==> r is None,
    {
        proof {
            self.lemma_tables();
        }
        if line < self.line_starts.len() {
            Some(self.line_starts[line])
        } else {
            None
        }
    }

    /// The byte length of the source text.
    pub fn byte_len(&self) -> (n: usize)
        requires
            self.wf(),
        ensures
            n == utf8_len(self.source@),
    {
        proof {
            lemma_encode_utf8_len(self.source@);
        }
        self.source.as_str().len()
    }

    /// The end, in characters, of line `line`.
    fn line_char_end_of(&self, line: usize) -> (e: usize)
        requires
            self.wf(),
            line < line_char_starts(self.source@).len(),
        ensures
            e == line_char_end(self.source@, line as int),
            line_char_starts(self.source@)[line as int] <= e <= self.source@.len(),
    {
        proof {
            self.lemma_tables();
        }
        proof {
            lemma_line_char_starts_bounds(self.source@);
            lemma_line_char_starts_increasing(self.source@);
            assert(self.line_char_starts@[line as int] as int == line_char_starts(self.source@)[line as int]);
        }
        if line < self.line_char_starts.len() - 1 {
            assert(self.line_char_starts@[line + 1] as int == line_char_starts(self.source@)[line + 1]);
            self.line_char_starts[line + 1]
        } else {
            self.chars.len()
        }
    }

    /// The text of line `line` without its terminating `'\r'`/`'\n'` characters.
    pub fn line_text(&self, line: usize) -> (r: Option<&str>)
        requires
            self.wf(),
        ensures
            r matches Some(t) ==> line_text_spec(self.source@, line as int) == Some(t@),
            r is None ==> line_text_spec(self.source@, line as int) is None,
    {
        proof {
            self.lemma_tables();
        }
        if line >= self.line_char_starts.len() {
            return None;
        }
        let start = self.line_char_starts[line];
        let end = self.line_char_end_of(line);
        let mut e = end;
        while e > start && (self.chars[e - 1] == '\r' || self.chars[e - 1] == '\n')
            invariant
                self.wf(),
                start <= e <= end <= self.source@.len(),
                trim_crlf_end_from(self.source@.subrange(start as int, end as int), e - start)
                    == trim_crlf_end_from(
                    self.source@.subrange(start as int, end as int),
                    end - start,
                ),
            decreases e,
        {
            e = e - 1;
        }
        let t = self.source.as_str().substring_char(start, e);
        proof {
            let seg = self.source@.subrange(start as int, end as int);
            assert(seg.take(e - start) == self.source@.subrange(start as int, e as int));
        }
        Some(t)
    }

    /// The characters of line `line` (see `line_text`), or nothing past the last line.
    pub fn line_chars(&self, line: usize) -> (r: Vec<char>)
        requires
            self.wf(),
        ensures
            r@ == line_or_empty(self.source@, line as int),
            line < line_char_starts(self.source@).len() ==> exists|e: int|
                line_char_starts(self.source@)[line as int] <= e <= self.source@.len() && r@
                    == self.source@.subrange(line_char_starts(self.source@)[line as int], e),
    {
        proof {
            self.lemma_tables();
        }
        if line >= self.line_char_starts.len() {
            return Vec::new();
        }
        let start = self.line_char_starts[line];
        let end = self.line_char_end_of(line);
        let mut e = end;
        while e > start && (self.chars[e - 1] == '\r' || self.chars[e - 1] == '\n')
            invariant
                self.wf(),
                start <= e <= end <= self.source@.len(),
                trim_crlf_end_from(self.source@.subrange(start as int, end as int), e - start)
                    == trim_crlf_end_from(
                    self.source@.subrange(start as int, end as int),
                    end - start,
                ),
            decreases e,
        {
            e = e - 1;
        }
        let r = crate::text::subvec(self.chars.as_slice(), start, e);
        proof {
            let seg = self.source@.subrange(start as int, end as int);
            assert(seg.take(e - start) == self.source@.subrange(start as int, e as int));
        }
        r
    }

    /// The byte offset where line `line` starts, or the byte length past the last line.
    pub fn line_start_or_len(&self, line: usize) -> (o: usize)
        requires
            self.wf(),
        ensures
            o == line_start_or_end(self.source@, line as int),
    {
        proof {
            self.lemma_tables();
        }
        if line < self.line_starts.len() {
            self.line_starts[line]
        } else {
            self.byte_len()
        }
    }

    /// The character index of byte offset `b`.
    pub(crate) fn char_index(&self, b: usize) -> (k: usize)
        requires
            self.wf(),
        ensures
            k == char_index_of_byte(self.source@, b as int),
            k <= self.source@.len(),
            utf8_len(self.source@.take(k as int)) <= usize::MAX,
    {
        let mut k: usize = 0;
        let mut acc: usize = 0;
        proof {
            assert(self.source@.take(0) == Seq::<char>::empty());
        }
        while k < self.chars.len() && acc < b
            invariant
                self.wf(),
                k <= self.source@.len(),
                acc == utf8_len(self.source@.take(k as int)),
                char_index_of_byte(self.source@, b as int) == char_index_from(
                    self.source@,
                    b as int,
                    k as int,
                ),
            decreases self.source@.len() - k,
        {
            proof {
                lemma_utf8_len_prefix_mono(self.source@, k + 1, self.source@.len() as int);
                assert(self.source@.take(self.source@.len() as int) == self.source@);
                assert(self.source@.take(k + 1).drop_last() == self.source@.take(k as int));
            }
            acc = acc + utf8_width_of(self.chars[k]);
            k = k + 1;
        }
        proof {
            lemma_utf8_len_prefix_mono(self.source@, k as int, self.source@.len() as int);
            assert(self.source@.take(self.source@.len() as int) == self.source@);
        }
        k
    }

    /// The text between two byte offsets, which must start characters.
    pub fn slice(&self, range: TextRange) -> (r: &str)
        requires
            self.wf(),
            range.start <= range.end <= utf8_len(self.source@),
            is_char_offset(self.source@, range.start as int),
            is_char_offset(self.source@, range.end as int),
        ensures
            r@ == self.source@.subrange(
                char_index_of_byte(self.source@, range.start as int),
                char_index_of_byte(self.source@, range.end as int),
            ),
    {
        let a = self.char_index(range.start);
        let b = self.char_index(range.end);
        proof {
            if b < a {
                lemma_utf8_len_prefix_mono(self.source@, b as int, a as int);
            }
        }
        self.source.as_str().substring_char(a, b)
    }

    /// The line and byte column of byte offset `offset`, clamped to the end of the text.
    pub fn position_at(&self, offset: usize) -> (p: Position)
        requires
            self.wf(),
        ensures
            position_at_spec(self.source@, offset as int, p),
    {
        let len = self.byte_len();
        let o = if offset < len {
            offset
        } else {
            len
        };
        let ghost starts = line_byte_starts(self.source@);
        proof {
            self.lemma_tables();
            lemma_line_byte_starts_first(self.source@);
            assert(self.line_starts@[0] as int == starts[0]);
        }
        let mut line: usize = 0;
        while line < self.line_starts.len() - 1 && self.line_starts[line + 1] <= o
            invariant
                as_ints(self.line_starts@) == starts,
                1 <= self.line_starts@.len(),
                line < self.line_starts@.len(),
                starts[line as int] <= o,
            decreases self.line_starts@.len() - line,
        {
            assert(self.line_starts@[line + 1] as int == starts[line + 1]);
            line = line + 1;
        }
        assert(self.line_starts@[line as int] as int == starts[line as int]);
        if line < self.line_starts.len() - 1 {
            assert(self.line_starts@[line + 1] as int == starts[line + 1]);
        }
        let p = Position { line: line as u32, character: (o - self.line_starts[line]) as u32 };
        proof {
            assert(is_line_of(starts, o as int, line as int));
            let oi = if offset <= utf8_len(self.source@) {
                offset as int
            } else {
                utf8_len(self.source@) as int
            };
            assert(oi == o);
            assert(is_line_of(line_byte_starts(self.source@), oi, line as int) && p.line == (
            line as int) as u32 && p.character == (oi - line_byte_starts(self.source@)[line as int]) as u32);
            let w = line as int;
            assert(oi == clamp_offset(self.source@, offset as int));
            assert(is_line_of(line_byte_starts(self.source@), clamp_offset(self.source@, offset as int), w));
            assert(p.line == w as u32);
            assert(p.character == (oi - line_byte_starts(self.source@)[w]) as u32);
            assert(position_at_spec(self.source@, offset as int, p));
        }
        p
    }

    /// The byte offset of a position; the column is clamped to the line's end and a line past
    /// the last gives the end of the text.
    pub fn offset_at(&self, position: Position) -> (o: usize)
        requires
            self.wf(),
        ensures
            o == offset_at_spec(self.source@, position),
    {
        proof {
            self.lemma_tables();
        }
        let line = position.line as usize;
        if line >= self.line_starts.len() {
            return self.byte_len();
        }
        let ghost starts = line_byte_starts(self.source@);
        proof {
            lemma_line_byte_starts_bounds(self.source@);
            lemma_line_byte_starts_increasing(self.source@);
            assert(self.line_starts@[line as int] as int == starts[line as int]);
        }
        let start = self.line_starts[line];
        let end = if line < self.line_starts.len() - 1 {
            assert(self.line_starts@[line + 1] as int == starts[line + 1]);
            self.line_starts[line + 1]
        } else {
            self.byte_len()
        };
        let ch = position.character as usize;
        if ch >= end - start {
            end
        } else {
            start + ch
        }
    }

    /// The positions of both ends of a byte range.
    pub fn range(&self, range: TextRange) -> (r: Range)
        requires
            self.wf(),
        ensures
            position_at_spec(self.source@, range.start as int, r.start),
            position_at_spec(self.source@, range.end as int, r.end),
    {
        Range { start: self.position_at(range.start), end: self.position_at(range.end) }
    }
}

/// `p` is the position of byte offset `offset` (clamped to the end of `s`).
pub open spec fn clamp_offset(s: Seq<char>, offset: int) -> int {
    if offset <= utf8_len(s) {
        offset
    } else {
        utf8_len(s) as int
    }
}

pub open spec fn position_at_spec(s: Seq<char>, offset: int, p: Position) -> bool {
    let o = clamp_offset(s, offset);
    exists|line: int|
        #![trigger is_line_of(line_byte_starts(s), o, line)]
        is_line_of(line_byte_starts(s), o, line) && p.line == line as u32 && p.character == (o
            - line_byte_starts(s)[line]) as u32
}

/// The byte offset of `position` in `s`.
pub open spec fn offset_at_spec(s: Seq<char>, position: Position) -> usize {
    let starts = line_byte_starts(s);
    let line = position.line as int;
    if line >= starts.len() {
        utf8_len(s) as usize
    } else {
        let start = starts[line];
        let end = line_byte_end(s, line);
        if position.character >= end - start {
            end as usize
        } else {
            (start + position.character) as usize
        }
    }
}

pub proof fn lemma_line_char_starts_first(s: Seq<char>)
    ensures
        line_char_starts(s).len() >= 1,
        line_char_starts(s)[0] == 0,
    decreases s.len(),
{
    if s.len() > 0 {
        lemma_line_char_starts_first(s.drop_last());
    }
}

pub proof fn lemma_line_char_starts_bounds(s: Seq<char>)
    ensures
        forall|k: int|
            0 <= k < line_char_starts(s).len() ==> 0 <= #[trigger] line_char_starts(s)[k] <= s.len(),
        forall|k: int| 0 < k < line_char_starts(s).len() ==> 1 <= #[trigger] line_char_starts(s)[k],
    decreases s.len(),
{
    if s.len() > 0 {
        let init = s.drop_last();
        lemma_line_char_starts_bounds(init);
        let r = line_char_starts(init);
        if s.last() == '\n' {
            assert(line_char_starts(s) == r.push(s.len() as int));
            assert forall|k: int| 0 <= k < r.len() + 1 implies 0 <= #[trigger] line_char_starts(s)[k]
                <= s.len() by {
                if k < r.len() {
                    assert(line_char_starts(s)[k] == r[k]);
                }
            }
        } else {
            assert(line_char_starts(s) == r);
        }
    }
}

pub proof fn lemma_line_char_starts_increasing(s: Seq<char>)
    ensures
        forall|k: int|
            0 <= k < line_char_starts(s).len() - 1 ==> #[trigger] line_char_starts(s)[k]
                < line_char_starts(s)[k + 1],
    decreases s.len(),
{
    if s.len() > 0 {
        let init = s.drop_last();
        lemma_line_char_starts_increasing(init);
        lemma_line_char_starts_bounds(init);
        let r = line_char_starts(init);
        if s.last() == '\n' {
            let t = r.push(s.len() as int);
            assert(line_char_starts(s) == t);
            assert forall|k: int| 0 <= k < t.len() - 1 implies #[trigger] t[k] < t[k + 1] by {
                if k + 1 < r.len() {
                    assert(t[k] == r[k] && t[k + 1] == r[k + 1]);
                } else {
                    assert(t[k] == r[k]);
                }
            }
        } else {
            assert(line_char_starts(s) == r);
        }
    }
}

pub proof fn lemma_line_char_starts_newline(s: Seq<char>)
    ensures
        forall|k: int|
            0 < k < line_char_starts(s).len() ==> s[#[trigger] line_char_starts(s)[k] - 1] == '\n',
    decreases s.len(),
{
    if s.len() > 0 {
        let init = s.drop_last();
        lemma_line_char_starts_newline(init);
        lemma_line_char_starts_bounds(init);
        let r = line_char_starts(init);
        assert forall|k: int| 0 < k < r.len() implies s[#[trigger] r[k] - 1] == '\n' by {
            assert(s[r[k] - 1] == init[r[k] - 1]);
        }
    }
}

pub proof fn lemma_line_byte_starts_first(s: Seq<char>)
    ensures
        line_byte_starts(s).len() >= 1,
        line_byte_starts(s).len() == line_char_starts(s).len(),
        line_byte_starts(s)[0] == 0,
{
    lemma_line_char_starts_first(s);
    assert(s.take(0) == Seq::<char>::empty());
}

pub proof fn lemma_line_byte_starts_bounds(s: Seq<char>)
    ensures
        line_byte_starts(s).len() == line_char_starts(s).len(),
        forall|k: int|
            0 <= k < line_byte_starts(s).len() ==> 0 <= #[trigger] line_byte_starts(s)[k] <= utf8_len(
                s,
            ),
{
    lemma_line_char_starts_bounds(s);
    let cs = line_char_starts(s);
    assert forall|k: int| 0 <= k < cs.len() implies 0 <= #[trigger] line_byte_starts(s)[k]
        <= utf8_len(s) by {
        lemma_utf8_len_prefix_mono(s, cs[k], s.len() as int);
        assert(s.take(s.len() as int) == s);
    }
}

pub proof fn lemma_line_byte_starts_increasing(s: Seq<char>)
    ensures
        forall|k: int|
            0 <= k < line_byte_starts(s).len() - 1 ==> #[trigger] line_byte_starts(s)[k]
                < line_byte_starts(s)[k + 1],
{
    lemma_line_char_starts_bounds(s);
    lemma_line_char_starts_increasing(s);
    let cs = line_char_starts(s);
    assert forall|k: int| 0 <= k < cs.len() - 1 implies #[trigger] line_byte_starts(s)[k]
        < line_byte_starts(s)[k + 1] by {
        assert(cs[k] < cs[k + 1]);
        lemma_utf8_len_prefix_mono(s, cs[k], cs[k + 1]);
    }
}

#[derive(Debug, Clone, PartialEq, Eq)]
pub enum BlockKind {
    Markdown { content: String },
    Math { statement: String },
    Image { src: String, alt: String, title: Option<String>, caption: Option<String> },
}

/// The view of an optional string.
pub open spec fn opt_view(o: Option<String>) -> Option<Seq<char>> {
    match o {
        Some(s) => Some(s@),
        None => None,
    }
}

pub enum BlockKindView {
    Markdown { content: Seq<char> },
    Math { statement: Seq<char> },
    Image {
        src: Seq<char>,
        alt: Seq<char>,
        title: Option<Seq<char>>,
        caption: Option<Seq<char>>,
    },
}

impl View for BlockKind {
    type V = BlockKindView;

    open spec fn view(&self) -> BlockKindView {
        match self {
            BlockKind::Markdown { content } => BlockKindView::Markdown { content: content@ },
            BlockKind::Math { statement } => BlockKindView::Math { statement: statement@ },
            BlockKind::Image { src, alt, title, caption } => BlockKindView::Image {
                src: src@,
                alt: alt@,
                title: opt_view(*title),
                caption: opt_view(*caption),
            },
        }
    }
}

/// Per-block overrides of the automatic naming options.
#[derive(Debug, Clone, Copy, PartialEq, Eq, Structural)]
pub struct RenderConfig {
    pub auto_name_subscript: Option<bool>,
    pub auto_name_symbol: Option<bool>,
}

impl Default for RenderConfig {
    /// No override.
    fn default() -> (c: RenderConfig)
        ensures
            c.auto_name_subscript is None,
            c.auto_name_symbol is None,
    {
        RenderConfig { auto_name_subscript: None, auto_name_symbol: None }
    }
}

#[derive(Debug, Clone)]
pub struct RenderableBlock {
    pub kind: BlockKind,
    pub range: TextRange,
    pub line: usize,
    pub config: RenderConfig,
}

pub struct BlockView {
    pub kind: BlockKindView,
    pub range: TextRange,
    pub line: usize,
    pub config: RenderConfig,
}

impl View for RenderableBlock {
    type V = BlockView;

    open spec fn view(&self) -> BlockView {
        BlockView { kind: self.kind@, range: self.range, line: self.line, config: self.config }
    }
}

/// The views of a list of blocks.
pub open spec fn blocks_view(b: Seq<RenderableBlock>) -> Seq<BlockView> {
    b.map_values(|x: RenderableBlock| x@)
}

#[derive(Debug, Clone)]
pub struct ParsedModule {
    pub source: SourceFile,
    pub blocks: Vec<RenderableBlock>,
    pub diagnostics: Vec<Diagnostic>,
}

} // verus!
