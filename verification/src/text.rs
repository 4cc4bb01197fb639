//! Character-level text primitives shared by the scanner, the lowering and the renderers.
//!
//! Text is handled as sequences of `char`; the view of a `String` or `&str` is its
//! `Seq<char>`. Byte lengths, where the document model needs them, are the UTF-8
//! widths of the characters.
use vstd::prelude::*;

verus! {

/// Unicode `White_Space`, the property that `char::is_whitespace` and `str::trim` use.
pub open spec fn is_white_space(c: char) -> bool {
    let u = c as u32;
    ||| 0x9 <= u <= 0xD
    ||| u == 0x20
    ||| u == 0x85
    ||| u == 0xA0
    ||| u == 0x1680
    ||| 0x2000 <= u <= 0x200A
    ||| u == 0x2028
    ||| u == 0x2029
    ||| u == 0x202F
    ||| u == 0x205F
    ||| u == 0x3000
}

/// ASCII whitespace as `u8::is_ascii_whitespace` has it: space, tab, LF, FF and CR.
pub open spec fn is_ascii_white_space(c: char) -> bool {
    c == ' ' || c == '\t' || c == '\n' || c == '\x0C' || c == '\r'
}

pub open spec fn is_ascii_digit(c: char) -> bool {
    '0' <= c <= '9'
}

pub open spec fn is_ascii_alphabetic(c: char) -> bool {
    ('a' <= c <= 'z') || ('A' <= c <= 'Z')
}

/// The number of bytes of the UTF-8 encoding of `c`.
pub open spec fn utf8_width(c: char) -> nat {
    let u = c as u32;
    if u < 0x80 {
        1
    } else if u < 0x800 {
        2
    } else if u < 0x10000 {
        3
    } else {
        4
    }
}

/// The number of bytes of the UTF-8 encoding of `s`.
pub open spec fn utf8_len(s: Seq<char>) -> nat
    decreases s.len(),
{
    if s.len() == 0 {
        0
    } else {
        utf8_len(s.drop_last()) + utf8_width(s.last())
    }
}

/// `ASCII` lower-casing of one character, as `char::to_ascii_lowercase`.
pub open spec fn ascii_lower(c: char) -> char {
    if 'A' <= c <= 'Z' {
        ((c as u32) + 32) as char
    } else {
        c
    }
}

pub open spec fn ascii_lower_seq(s: Seq<char>) -> Seq<char> {
    s.map_values(|c: char| ascii_lower(c))
}

/// First index at or after `i` that does not hold white space.
pub open spec fn lead_ws_from(s: Seq<char>, i: int) -> int
    decreases s.len() - i,
{
    if 0 <= i < s.len() && is_white_space(s[i]) {
        lead_ws_from(s, i + 1)
    } else {
        i
    }
}

/// The end of `s.take(j)` once trailing white space is dropped.
pub open spec fn trail_ws_from(s: Seq<char>, j: int) -> int
    decreases j,
{
    if 0 < j <= s.len() && is_white_space(s[j - 1]) {
        trail_ws_from(s, j - 1)
    } else {
        j
    }
}

/// `str::trim_start`.
pub open spec fn trim_start(s: Seq<char>) -> Seq<char> {
    s.skip(lead_ws_from(s, 0))
}

/// `str::trim_end`.
pub open spec fn trim_end(s: Seq<char>) -> Seq<char> {
    s.take(trail_ws_from(s, s.len() as int))
}

/// `str::trim`.
pub open spec fn trim(s: Seq<char>) -> Seq<char> {
    trim_end(trim_start(s))
}

/// `str::starts_with` for a string pattern.
pub open spec fn starts_with(s: Seq<char>, p: Seq<char>) -> bool {
    p.len() <= s.len() && s.take(p.len() as int) == p
}

/// `str::ends_with` for a string pattern.
pub open spec fn ends_with(s: Seq<char>, p: Seq<char>) -> bool {
    p.len() <= s.len() && s.skip(s.len() - p.len()) == p
}

/// Whether `p` occurs in `s` at index `i`.
pub open spec fn occurs_at(s: Seq<char>, p: Seq<char>, i: int) -> bool {
    0 <= i && i + p.len() <= s.len() && s.subrange(i, i + p.len()) == p
}

/// The first index at or after `i` where `p` occurs in `s` (`str::find` from `i`).
pub open spec fn find_from(s: Seq<char>, p: Seq<char>, i: int) -> Option<int>
    decreases s.len() + 1 - i,
{
    if i < 0 || i + p.len() > s.len() {
        None
    } else if s.subrange(i, i + p.len()) == p {
        Some(i)
    } else {
        find_from(s, p, i + 1)
    }
}

pub proof fn lemma_find_in_bounds(s: Seq<char>, p: Seq<char>, i: int)
    ensures
        find_from(s, p, i) matches Some(k) ==> i <= k && k + p.len() <= s.len() && s.subrange(
            k,
            k + p.len(),
        ) == p,
    decreases s.len() + 1 - i,
{
    if !(i < 0 || i + p.len() > s.len()) && s.subrange(i, i + p.len()) != p {
        lemma_find_in_bounds(s, p, i + 1);
    }
}

/// `str::find`.
pub open spec fn find(s: Seq<char>, p: Seq<char>) -> Option<int> {
    find_from(s, p, 0)
}

/// `str::contains`.
pub open spec fn contains(s: Seq<char>, p: Seq<char>) -> bool {
    find(s, p) is Some
}

/// The last index strictly below `j` at which `p` occurs, searching downwards.
pub open spec fn rfind_below(s: Seq<char>, p: Seq<char>, j: int) -> Option<int>
    decreases j,
{
    if j <= 0 {
        None
    } else if occurs_at(s, p, j - 1) {
        Some(j - 1)
    } else {
        rfind_below(s, p, j - 1)
    }
}

/// Where `rfind_below` finds `p`, `p` occurs.
pub proof fn lemma_rfind_occurs(s: Seq<char>, p: Seq<char>, j: int)
    ensures
        rfind_below(s, p, j) matches Some(i) ==> occurs_at(s, p, i),
    decreases j,
{
    if j > 0 && !occurs_at(s, p, j - 1) {
        lemma_rfind_occurs(s, p, j - 1);
    }
}

/// `str::rfind`.
pub open spec fn rfind(s: Seq<char>, p: Seq<char>) -> Option<int> {
    rfind_below(s, p, s.len() as int + 1)
}

/// Each occurrence of `c` in `s` replaced by `r` (`str::replace` with a `char` pattern).
pub open spec fn replace_char(s: Seq<char>, c: char, r: Seq<char>) -> Seq<char>
    decreases s.len(),
{
    if s.len() == 0 {
        s
    } else {
        replace_char(s.drop_last(), c, r) + (if s.last() == c {
            r
        } else {
            seq![s.last()]
        })
    }
}

/// The pieces of `s` between occurrences of `c` (`str::split` with a `char` pattern).
pub open spec fn split_char(s: Seq<char>, c: char) -> Seq<Seq<char>>
    decreases s.len(),
{
    if s.len() == 0 {
        seq![seq![]]
    } else {
        let rest = split_char(s.drop_last(), c);
        if s.last() == c {
            rest.push(seq![])
        } else {
            rest.update(rest.len() - 1, rest.last().push(s.last()))
        }
    }
}

/// `pieces` joined with `sep` between consecutive pieces.
pub open spec fn join(pieces: Seq<Seq<char>>, sep: Seq<char>) -> Seq<char>
    decreases pieces.len(),
{
    if pieces.len() == 0 {
        seq![]
    } else if pieces.len() == 1 {
        pieces[0]
    } else {
        join(pieces.drop_last(), sep) + sep + pieces.last()
    }
}

/// Concatenation of all pieces.
pub open spec fn concat(pieces: Seq<Seq<char>>) -> Seq<char> {
    join(pieces, seq![])
}

pub proof fn lemma_trail_le(s: Seq<char>, j: int)
    requires
        0 <= j <= s.len(),
    ensures
        0 <= trail_ws_from(s, j) <= j,
    decreases j,
{
    if 0 < j && is_white_space(s[j - 1]) {
        lemma_trail_le(s, j - 1);
    }
}

pub proof fn lemma_lead_ge(s: Seq<char>, i: int)
    requires
        0 <= i <= s.len(),
    ensures
        i <= lead_ws_from(s, i) <= s.len(),
    decreases s.len() - i,
{
    if i < s.len() && is_white_space(s[i]) {
        lemma_lead_ge(s, i + 1);
    }
}

pub proof fn lemma_trim_len(s: Seq<char>)
    ensures
        trim(s).len() <= s.len(),
        trim_start(s).len() <= s.len(),
        trim_end(s).len() <= s.len(),
{
    lemma_lead_ge(s, 0);
    let t = trim_start(s);
    lemma_trail_le(t, t.len() as int);
    lemma_trail_le(s, s.len() as int);
}

pub fn is_white_space_char(c: char) -> (b: bool)
    ensures
        b == is_white_space(c),
{
    let u = c as u32;
    (0x9 <= u && u <= 0xD) || u == 0x20 || u == 0x85 || u == 0xA0 || u == 0x1680 || (0x2000
        <= u && u <= 0x200A) || u == 0x2028 || u == 0x2029 || u == 0x202F || u == 0x205F || u
        == 0x3000
}

pub fn is_ascii_white_space_char(c: char) -> (b: bool)
    ensures
        b == is_ascii_white_space(c),
{
    c == ' ' || c == '\t' || c == '\n' || c == '\x0C' || c == '\r'
}

pub fn is_ascii_digit_char(c: char) -> (b: bool)
    ensures
        b == is_ascii_digit(c),
{
    '0' <= c && c <= '9'
}

pub fn is_ascii_alphabetic_char(c: char) -> (b: bool)
    ensures
        b == is_ascii_alphabetic(c),
{
    ('a' <= c && c <= 'z') || ('A' <= c && c <= 'Z')
}

/// Whether `c` has the Unicode `Alphabetic` property: the result of `char::is_alphabetic`,
/// whose tables are not restated here.
pub uninterp spec fn char_is_alphabetic(c: char) -> bool;

/// Whether `c` is alphabetic or numeric: the result of `char::is_alphanumeric`.
pub uninterp spec fn char_is_alphanumeric(c: char) -> bool;

/// The `Debug` text of a string: the characters in double quotes, with the escapes of
/// `char::escape_debug`; the result of formatting a `&str` with `{:?}`.
pub uninterp spec fn str_debug(s: Seq<char>) -> Seq<char>;

/// `char::is_alphabetic`; its result is named by [`char_is_alphabetic`].
#[verifier::external_body]
pub(crate) fn is_alphabetic(c: char) -> (r: bool)
    ensures
        r == char_is_alphabetic(c),
{
    c.is_alphabetic()
}

/// `char::is_alphanumeric`; its result is named by [`char_is_alphanumeric`].
#[verifier::external_body]
pub(crate) fn is_alphanumeric(c: char) -> (r: bool)
    ensures
        r == char_is_alphanumeric(c),
{
    c.is_alphanumeric()
}

/// The `{:?}` formatting of `s`; its result is named by [`str_debug`].
#[verifier::external_body]
pub(crate) fn debug_quoted(s: &str) -> (r: String)
    ensures
        r@ == str_debug(s@),
{
    format!("{:?}", s)
}

/// The characters of the `{:?}` formatting of the string made of `s`.
pub(crate) fn debug_chars(s: &[char]) -> (r: Vec<char>)
    ensures
        r@ == str_debug(s@),
{
    let t = string_of(s);
    let d = debug_quoted(t.as_str());
    chars_of(d.as_str())
}

pub fn utf8_width_of(c: char) -> (w: usize)
    ensures
        w == utf8_width(c),
{
    let u = c as u32;
    if u < 0x80 {
        1
    } else if u < 0x800 {
        2
    } else if u < 0x10000 {
        3
    } else {
        4
    }
}

pub proof fn lemma_utf8_len_append(a: Seq<char>, b: Seq<char>)
    ensures
        utf8_len(a + b) == utf8_len(a) + utf8_len(b),
    decreases b.len(),
{
    if b.len() == 0 {
        assert(a + b == a);
    } else {
        lemma_utf8_len_append(a, b.drop_last());
        assert((a + b).drop_last() == a + b.drop_last());
    }
}

pub proof fn lemma_utf8_len_bounds(s: Seq<char>)
    ensures
        s.len() <= utf8_len(s) <= 4 * s.len(),
    decreases s.len(),
{
    if s.len() > 0 {
        lemma_utf8_len_bounds(s.drop_last());
    }
}

/// The UTF-8 byte length of `s@.take(n)`.
pub fn utf8_len_of_prefix(s: &[char], n: usize) -> (len: usize)
    requires
        n <= s@.len(),
        utf8_len(s@.take(n as int)) <= usize::MAX,
    ensures
        len == utf8_len(s@.take(n as int)),
{
    let mut len: usize = 0;
    let mut i: usize = 0;
    while i < n
        invariant
            i <= n <= s@.len(),
            utf8_len(s@.take(n as int)) <= usize::MAX,
            len == utf8_len(s@.take(i as int)),
        decreases n - i,
    {
        proof {
            assert(s@.take(i + 1).drop_last() == s@.take(i as int));
            let t = s@.take(n as int);
            assert(t.take(i + 1) == s@.take(i + 1));
            assert(t.take(n as int) == t);
            lemma_utf8_len_prefix_le(t, i + 1, n as int);
        }
        len = len + utf8_width_of(s[i]);
        i = i + 1;
    }
    len
}

pub proof fn lemma_utf8_len_prefix_le(s: Seq<char>, i: int, j: int)
    requires
        0 <= i <= j <= s.len(),
    ensures
        utf8_len(s.take(i)) <= utf8_len(s.take(j)),
    decreases j - i,
{
    if i < j {
        lemma_utf8_len_prefix_le(s, i, j - 1);
        assert(s.take(j).drop_last() == s.take(j - 1));
    }
}

/// Splitting a text at index `a` splits its byte length.
pub proof fn lemma_utf8_len_split(s: Seq<char>, a: int, b: int)
    requires
        0 <= a <= b <= s.len(),
    ensures
        utf8_len(s.take(a)) + utf8_len(s.subrange(a, b)) == utf8_len(s.take(b)),
        utf8_len(s.take(b)) <= utf8_len(s),
{
    assert(s.take(a) + s.subrange(a, b) == s.take(b));
    lemma_utf8_len_append(s.take(a), s.subrange(a, b));
    lemma_utf8_len_prefix_le(s, b, s.len() as int);
    assert(s.take(s.len() as int) == s);
}

/// The characters of `s`.
pub fn chars_of(s: &str) -> (v: Vec<char>)
    ensures
        v@ == s@,
{
    let mut v: Vec<char> = Vec::new();
    for c in it: s.chars()
        invariant
            v@ == it.seq().take(it.index() as int),
    {
        v.push(c);
    }
    v
}

/// Appends one character to a `String` with `String::push`.
#[verifier::external_body]
fn push_char(s: &mut String, c: char)
    ensures
        final(s)@ == old(s)@.push(c),
{
    s.push(c);
}

/// The `String` holding the characters of `v`.
pub fn string_of(v: &[char]) -> (s: String)
    ensures
        s@ == v@,
{
    let mut s = String::new();
    for i in 0..v.len()
        invariant
            s@ == v@.take(i as int),
    {
        push_char(&mut s, v[i]);
        assert(v@.take(i + 1) == v@.take(i as int).push(v@[i as int]));
    }
    assert(v@.take(v.len() as int) == v@);
    s
}

/// A copy of `s@.subrange(a, b)`.
pub fn subvec(s: &[char], a: usize, b: usize) -> (v: Vec<char>)
    requires
        a <= b <= s@.len(),
    ensures
        v@ == s@.subrange(a as int, b as int),
{
    let mut v: Vec<char> = Vec::new();
    let mut i = a;
    while i < b
        invariant
            a <= i <= b <= s@.len(),
            v@ == s@.subrange(a as int, i as int),
        decreases b - i,
    {
        v.push(s[i]);
        i = i + 1;
    }
    v
}

/// Appends `t` to `v`.
pub fn push_all(v: &mut Vec<char>, t: &[char])
    ensures
        final(v)@ == old(v)@ + t@,
{
    let ghost start = v@;
    for i in 0..t.len()
        invariant
            v@ == start + t@.take(i as int),
    {
        v.push(t[i]);
        assert(t@.take(i + 1) == t@.take(i as int).push(t@[i as int]));
    }
    assert(t@.take(t.len() as int) == t@);
}

/// Appends the characters of `t` to `v`.
pub fn push_str(v: &mut Vec<char>, t: &str)
    ensures
        final(v)@ == old(v)@ + t@,
{
    let c = chars_of(t);
    push_all(v, &c);
}

/// Whether `a` and `b` hold the same characters.
pub fn seq_eq(a: &[char], b: &[char]) -> (r: bool)
    ensures
        r == (a@ == b@),
{
    if a.len() != b.len() {
        return false;
    }
    let mut i: usize = 0;
    while i < a.len()
        invariant
            a@.len() == b@.len(),
            i <= a@.len(),
            a@.take(i as int) == b@.take(i as int),
        decreases a.len() - i,
    {
        if a[i] != b[i] {
            assert(a@[i as int] != b@[i as int]);
            return false;
        }
        assert(a@.take(i + 1) == a@.take(i as int).push(a@[i as int]));
        assert(b@.take(i + 1) == b@.take(i as int).push(b@[i as int]));
        i = i + 1;
    }
    assert(a@ == a@.take(i as int));
    assert(b@ == b@.take(i as int));
    true
}

/// Whether `s` holds exactly the characters of the string `lit`.
pub fn eq_str(s: &[char], lit: &str) -> (r: bool)
    ensures
        r == (s@ == lit@),
{
    let l = chars_of(lit);
    seq_eq(s, &l)
}

/// Whether `p` occurs in `s` at index `i`.
pub fn occurs_at_index(s: &[char], p: &[char], i: usize) -> (r: bool)
    ensures
        r == occurs_at(s@, p@, i as int),
{
    if i > s.len() || p.len() > s.len() - i {
        return false;
    }
    let mut k: usize = 0;
    while k < p.len()
        invariant
            i <= s.len(),
            p.len() <= s.len() - i,
            i + p@.len() <= s@.len(),
            k <= p@.len(),
            forall|j: int| 0 <= j < k ==> s@[i + j] == p@[j],
        decreases p.len() - k,
    {
        if s[i + k] != p[k] {
            assert(s@.subrange(i as int, i + p@.len())[k as int] != p@[k as int]);
            return false;
        }
        k = k + 1;
    }
    assert(s@.subrange(i as int, i + p@.len()) =~= p@);
    true
}

pub fn starts_with_chars(s: &[char], p: &[char]) -> (r: bool)
    ensures
        r == starts_with(s@, p@),
{
    let r = occurs_at_index(s, p, 0);
    proof {
        if p@.len() <= s@.len() {
            assert(s@.take(p@.len() as int) == s@.subrange(0, p@.len() as int));
        }
    }
    r
}

pub fn starts_with_str(s: &[char], p: &str) -> (r: bool)
    ensures
        r == starts_with(s@, p@),
{
    let pc = chars_of(p);
    starts_with_chars(s, &pc)
}

pub fn ends_with_chars(s: &[char], p: &[char]) -> (r: bool)
    ensures
        r == ends_with(s@, p@),
{
    if p.len() > s.len() {
        return false;
    }
    let r = occurs_at_index(s, p, s.len() - p.len());
    proof {
        assert(s@.skip(s@.len() - p@.len()) == s@.subrange(
            s@.len() - p@.len(),
            s@.len() - p@.len() + p@.len(),
        ));
    }
    r
}

pub fn ends_with_str(s: &[char], p: &str) -> (r: bool)
    ensures
        r == ends_with(s@, p@),
{
    let pc = chars_of(p);
    ends_with_chars(s, &pc)
}

/// `str::find` from index `from`.
pub fn find_chars_from(s: &[char], p: &[char], from: usize) -> (r: Option<usize>)
    ensures
        r matches Some(i) ==> find_from(s@, p@, from as int) == Some(i as int) && from <= i && i
            + p@.len() <= s@.len() && s@.subrange(i as int, i + p@.len()) == p@,
        r is None ==> find_from(s@, p@, from as int) is None,
{
    let mut i = from;
    loop
        invariant
            from <= i,
            find_from(s@, p@, from as int) == find_from(s@, p@, i as int),
        decreases s@.len() + 1 - i,
    {
        if i > s.len() || p.len() > s.len() - i {
            return None;
        }
        if occurs_at_index(s, p, i) {
            proof {
                lemma_find_in_bounds(s@, p@, i as int);
            }
            return Some(i);
        }
        if i >= s.len() {
            proof {
                reveal_with_fuel(find_from, 2);
            }
            return None;
        }
        i = i + 1;
    }
}

pub fn find_chars(s: &[char], p: &[char]) -> (r: Option<usize>)
    ensures
        r matches Some(i) ==> find(s@, p@) == Some(i as int) && i + p@.len() <= s@.len()
            && s@.subrange(i as int, i + p@.len()) == p@,
        r is None ==> find(s@, p@) is None,
{
    find_chars_from(s, p, 0)
}

pub fn find_str(s: &[char], p: &str) -> (r: Option<usize>)
    ensures
        r matches Some(i) ==> find(s@, p@) == Some(i as int) && i + p@.len() <= s@.len()
            && s@.subrange(i as int, i + p@.len()) == p@,
        r is None ==> find(s@, p@) is None,
{
    let pc = chars_of(p);
    find_chars(s, &pc)
}

pub fn contains_str(s: &[char], p: &str) -> (r: bool)
    ensures
        r == contains(s@, p@),
{
    find_str(s, p).is_some()
}

/// The first index of `c` in `s`.
pub fn find_char(s: &[char], c: char) -> (r: Option<usize>)
    ensures
        r matches Some(i) ==> find(s@, seq![c]) == Some(i as int) && i < s@.len() && s@[i as int]
            == c,
        r is None ==> find(s@, seq![c]) is None,
{
    let p = vec![c];
    assert(p@ == seq![c]);
    let r = find_chars(s, &p);
    if let Some(i) = r {
        assert(s@.subrange(i as int, i + 1)[0] == s@[i as int]);
    }
    r
}

/// `str::rfind`.
pub fn rfind_chars(s: &[char], p: &[char]) -> (r: Option<usize>)
    ensures
        r matches Some(i) ==> rfind(s@, p@) == Some(i as int),
        r is None ==> rfind(s@, p@) is None,
{
    let mut k: usize = s.len();
    loop
        invariant
            k <= s@.len(),
            rfind(s@, p@) == rfind_below(s@, p@, k + 1),
        decreases k,
    {
        if occurs_at_index(s, p, k) {
            return Some(k);
        }
        if k == 0 {
            proof {
                reveal_with_fuel(rfind_below, 2);
            }
            return None;
        }
        k = k - 1;
    }
}

/// Index of the first character of `s` that is not white space.
pub fn lead_ws(s: &[char]) -> (i: usize)
    ensures
        i == lead_ws_from(s@, 0),
        i <= s@.len(),
{
    let mut i: usize = 0;
    while i < s.len() && is_white_space_char(s[i])
        invariant
            i <= s@.len(),
            lead_ws_from(s@, 0) == lead_ws_from(s@, i as int),
        decreases s.len() - i,
    {
        i = i + 1;
    }
    i
}

/// End of `s@.take(j)` without its trailing white space.
pub fn trail_ws(s: &[char], j: usize) -> (e: usize)
    requires
        j <= s@.len(),
    ensures
        e == trail_ws_from(s@, j as int),
        e <= j,
{
    let mut e = j;
    while e > 0 && is_white_space_char(s[e - 1])
        invariant
            e <= j <= s@.len(),
            trail_ws_from(s@, j as int) == trail_ws_from(s@, e as int),
        decreases e,
    {
        e = e - 1;
    }
    e
}

pub fn trim_start_chars(s: &[char]) -> (t: Vec<char>)
    ensures
        t@ == trim_start(s@),
{
    let i = lead_ws(s);
    subvec(s, i, s.len())
}

pub fn trim_end_chars(s: &[char]) -> (t: Vec<char>)
    ensures
        t@ == trim_end(s@),
{
    let e = trail_ws(s, s.len());
    subvec(s, 0, e)
}

pub fn trim_chars(s: &[char]) -> (t: Vec<char>)
    ensures
        t@ == trim(s@),
{
    let a = trim_start_chars(s);
    trim_end_chars(&a)
}

/// Each `c` in `s` replaced by `r`.
pub fn replace_char_chars(s: &[char], c: char, r: &[char]) -> (out: Vec<char>)
    ensures
        out@ == replace_char(s@, c, r@),
{
    let mut out: Vec<char> = Vec::new();
    for i in 0..s.len()
        invariant
            out@ == replace_char(s@.take(i as int), c, r@),
    {
        assert(s@.take(i + 1).drop_last() == s@.take(i as int));
        if s[i] == c {
            push_all(&mut out, r);
        } else {
            out.push(s[i]);
        }
    }
    assert(s@.take(s.len() as int) == s@);
    out
}

/// ASCII lower-casing of every character.
pub fn ascii_lower_chars(s: &[char]) -> (out: Vec<char>)
    ensures
        out@ == ascii_lower_seq(s@),
{
    let mut out: Vec<char> = Vec::new();
    for i in 0..s.len()
        invariant
            out@ == ascii_lower_seq(s@.take(i as int)),
    {
        let c = s[i];
        let l = if 'A' <= c && c <= 'Z' {
            char_from_u32_ascii((c as u32) + 32)
        } else {
            c
        };
        out.push(l);
        assert(ascii_lower_seq(s@.take(i + 1)) =~= ascii_lower_seq(s@.take(i as int)).push(
            ascii_lower(s@[i as int]),
        ));
    }
    assert(s@.take(s.len() as int) == s@);
    out
}

/// The character with an ASCII code point.
fn char_from_u32_ascii(u: u32) -> (c: char)
    requires
        u < 0x80,
    ensures
        c == u as char,
{
    let b = u as u8;
    b as char
}

/// `str::split` on a `char`.
pub fn split_on_char(s: &[char], c: char) -> (parts: Vec<Vec<char>>)
    ensures
        parts@.len() == split_char(s@, c).len(),
        forall|k: int| 0 <= k < parts@.len() ==> #[trigger] parts@[k]@ == split_char(s@, c)[k],
{
    let mut parts: Vec<Vec<char>> = Vec::new();
    let mut cur: Vec<char> = Vec::new();
    for i in 0..s.len()
        invariant
            parts@.len() + 1 == split_char(s@.take(i as int), c).len(),
            forall|k: int|
                0 <= k < parts@.len() ==> #[trigger] parts@[k]@ == split_char(
                    s@.take(i as int),
                    c,
                )[k],
            cur@ == split_char(s@.take(i as int), c).last(),
    {
        assert(s@.take(i + 1).drop_last() == s@.take(i as int));
        if s[i] == c {
            parts.push(cur);
            cur = Vec::new();
        } else {
            cur.push(s[i]);
        }
    }
    assert(s@.take(s.len() as int) == s@);
    parts.push(cur);
    parts
}

/// Joins the pieces with `sep` between them.
pub fn join_chars(pieces: &Vec<Vec<char>>, sep: &[char]) -> (out: Vec<char>)
    ensures
        out@ == join(pieces@.map_values(|p: Vec<char>| p@), sep@),
{
    let ghost views = pieces@.map_values(|p: Vec<char>| p@);
    let mut out: Vec<char> = Vec::new();
    for i in 0..pieces.len()
        invariant
            views == pieces@.map_values(|p: Vec<char>| p@),
            out@ == join(views.take(i as int), sep@),
    {
        assert(views.take(i + 1).drop_last() == views.take(i as int));
        if i > 0 {
            push_all(&mut out, sep);
        } else {
            assert(views.take(0) == Seq::<Seq<char>>::empty());
        }
        push_all(&mut out, &pieces[i]);
        assert(views.take(i + 1).last() == pieces@[i as int]@);
    }
    assert(views.take(pieces.len() as int) == views);
    out
}

} // verus!
