//! Properties that hold across the library's operations.
use vstd::prelude::*;
use crate::ast::{
    line_char_end, line_or_empty, line_start_or_end, line_text_spec,
    clamp_offset, line_byte_end, line_byte_starts, line_char_starts, offset_at_spec,
    position_at_spec, Position, Range, TextRange,
};
use crate::editor::{lookup_matches, matching, position_le};
use crate::ast::{BlockView, DiagnosticView};
use crate::markdown::{block_content, content_diags, contents, document_diags, empty_diag, selected};
use crate::metadata::{
    expand_spec, expansion_of, first_entry_from, lookup_table, nonempty_pieces, resolve_spec,
    SymbolLookupEntryView,
};
use crate::text::{find, find_from, starts_with, trim};
use crate::scan::{
    first_text_byte, indentation_spec, initial_scan_state, lemma_scan_step_advances, line_count_of,
    scan_from, scan_spec, scan_step, ScanState,
};
use crate::paths::{
    absolutize, full_components, is_component, is_local_relative, is_name, lemma_components_ok,
    lemma_components_of_join, lemma_fold_append, lemma_fold_keeps_names, lemma_fold_names,
    lemma_fold_ups, lemma_root_first, lemma_shared, norm_fold, normalize, parent_components,
    path_components, path_text, relative_components, resolve_figure_spec, shared_from, ups,
};
use crate::text::join;
use crate::text::{contains, utf8_len};
use crate::config::{both, get, options_from_config, TomlValue};
use crate::latex::RenderOptions;
use crate::config::{builtins_view, loaded_view};
use crate::metadata::{inline_view, MetadataView};

verus! {

proof fn lemma_line_count(s: Seq<char>)
    ensures
        line_char_starts(s).len() <= s.len() + 1,
    decreases s.len(),
{
    if s.len() > 0 {
        lemma_line_count(s.drop_last());
    }
}

/// The byte offset of the position of byte offset `o` is `o` itself (clamped to the end of
/// the text), for texts whose lines and columns fit in `u32`.
pub proof fn law_offset_of_position(s: Seq<char>, o: int, p: Position)
    requires
        utf8_len(s) <= u32::MAX,
        0 <= o,
        position_at_spec(s, o, p),
    ensures
        offset_at_spec(s, p) == clamp_offset(s, o),
{
    let c = clamp_offset(s, o);
    let starts = line_byte_starts(s);
    let line = choose|line: int|
        #![trigger crate::ast::is_line_of(line_byte_starts(s), c, line)]
        crate::ast::is_line_of(line_byte_starts(s), c, line) && p.line == line as u32
            && p.character == (c - line_byte_starts(s)[line]) as u32;
    crate::ast::lemma_line_byte_starts_first(s);
    crate::ast::lemma_line_byte_starts_bounds(s);
    crate::text::lemma_utf8_len_bounds(s);
    lemma_line_count(s);
    assert(p.line as int == line);
    assert(p.character as int == c - starts[line]);
    if line + 1 < starts.len() {
        assert(line_byte_end(s, line) == starts[line + 1]);
    }
}

/// Whether two byte ranges overlap does not depend on their order.
pub proof fn law_overlap_is_symmetric(a: TextRange, b: TextRange)
    ensures
        a.meets(b) == b.meets(a),
{
}

/// Two non-empty ranges overlap exactly when some byte offset lies in both, before the end of
/// each.
pub proof fn law_overlap_is_a_shared_byte(a: TextRange, b: TextRange)
    requires
        a.start < a.end,
        b.start < b.end,
    ensures
        a.meets(b) <==> exists|x: int|
            #[trigger] a.holds(x) && b.holds(x) && x < a.end && x < b.end,
{
    if a.meets(b) {
        let x = if a.start <= b.start {
            b.start as int
        } else {
            a.start as int
        };
        assert(a.holds(x) && b.holds(x) && x < a.end && x < b.end);
    }
}

/// An empty byte range at `o` contains the offset `o` and no other.
pub proof fn law_empty_range_holds_one_offset(o: usize, x: int)
    ensures
        (TextRange { start: o, end: o }).holds(x) <==> x == o,
{
}

proof fn lemma_starts_sorted(t: Seq<int>, i: int, j: int)
    requires
        forall|k: int| 0 <= k < t.len() - 1 ==> #[trigger] t[k] < t[k + 1],
        0 <= i <= j < t.len(),
    ensures
        t[i] <= t[j],
        i < j ==> t[i] < t[j],
    decreases j - i,
{
    if i < j {
        lemma_starts_sorted(t, i, j - 1);
        assert(t[j - 1] < t[j]);
    }
}

/// The position of a byte offset is determined by it, for texts whose lines and columns fit
/// in `u32`: with the offset clamped to the end of the text, its line is the last one that
/// starts at or before it, its column is the byte count from that start, and no other
/// position satisfies `position_at_spec` (so `range` gives the positions of its two ends).
pub proof fn law_position_is_determined(s: Seq<char>, offset: int, p: Position, q: Position, k: int)
    requires
        utf8_len(s) <= u32::MAX,
        0 <= offset,
        position_at_spec(s, offset, p),
    ensures
        ({
            let o = clamp_offset(s, offset);
            let starts = line_byte_starts(s);
            &&& (p.line as int) < starts.len()
            &&& starts[p.line as int] <= o
            &&& p.character as int == o - starts[p.line as int]
            &&& (0 <= k < starts.len() && starts[k] <= o) ==> k <= p.line
        }),
        position_at_spec(s, offset, q) ==> q == p,
{
    let starts = line_byte_starts(s);
    let o = clamp_offset(s, offset);
    let l = choose|line: int|
        #![trigger crate::ast::is_line_of(line_byte_starts(s), o, line)]
        crate::ast::is_line_of(line_byte_starts(s), o, line) && p.line == line as u32
            && p.character == (o - line_byte_starts(s)[line]) as u32;
    crate::ast::lemma_line_byte_starts_first(s);
    crate::ast::lemma_line_byte_starts_bounds(s);
    crate::ast::lemma_line_byte_starts_increasing(s);
    crate::text::lemma_utf8_len_bounds(s);
    lemma_line_count(s);
    assert(p.line as int == l);
    assert(p.character as int == o - starts[l]);
    if 0 <= k < starts.len() && starts[k] <= o && k > l {
        lemma_starts_sorted(starts, l + 1, k);
    }
    if position_at_spec(s, offset, q) {
        let m = choose|line: int|
            #![trigger crate::ast::is_line_of(line_byte_starts(s), o, line)]
            crate::ast::is_line_of(line_byte_starts(s), o, line) && q.line == line as u32
                && q.character == (o - line_byte_starts(s)[line]) as u32;
        if m > l {
            lemma_starts_sorted(starts, l + 1, m);
        }
        if m < l {
            lemma_starts_sorted(starts, m + 1, l);
        }
        assert(m == l);
    }
}

/// The positions of the two ends of a byte range come in document order, for texts whose
/// lines and columns fit in `u32`: the start is at or before the end.
pub proof fn law_range_ends_in_order(s: Seq<char>, r: TextRange, out: Range)
    requires
        utf8_len(s) <= u32::MAX,
        r.start <= r.end,
        position_at_spec(s, r.start as int, out.start),
        position_at_spec(s, r.end as int, out.end),
    ensures
        position_le(out.start, out.end),
{
    let starts = line_byte_starts(s);
    let c1 = clamp_offset(s, r.start as int);
    let c2 = clamp_offset(s, r.end as int);
    let l1 = choose|line: int|
        #![trigger crate::ast::is_line_of(line_byte_starts(s), c1, line)]
        crate::ast::is_line_of(line_byte_starts(s), c1, line) && out.start.line == line as u32
            && out.start.character == (c1 - line_byte_starts(s)[line]) as u32;
    let l2 = choose|line: int|
        #![trigger crate::ast::is_line_of(line_byte_starts(s), c2, line)]
        crate::ast::is_line_of(line_byte_starts(s), c2, line) && out.end.line == line as u32
            && out.end.character == (c2 - line_byte_starts(s)[line]) as u32;
    crate::ast::lemma_line_byte_starts_first(s);
    crate::ast::lemma_line_byte_starts_bounds(s);
    crate::ast::lemma_line_byte_starts_increasing(s);
    crate::text::lemma_utf8_len_bounds(s);
    lemma_line_count(s);
    assert(c1 <= c2);
    if l1 > l2 {
        lemma_starts_sorted(starts, l2 + 1, l1);
        assert(false);
    }
    assert(out.start.line as int == l1);
    assert(out.end.line as int == l2);
    if l1 == l2 {
        assert(out.start.character as int == c1 - starts[l1]);
        assert(out.end.character as int == c2 - starts[l2]);
    }
}

/// Without a range every block is selected; with one, the selected blocks are those whose
/// ranges overlap it, in document order.
pub proof fn law_selection_keeps_the_overlapping_blocks(b: Seq<BlockView>, r: TextRange)
    ensures
        selected(b, None) == b,
        selected(b, Some(r)) == b.filter(|x: BlockView| x.range.meets(r)),
    decreases b.len(),
{
    reveal(Seq::filter);
    if b.len() > 0 {
        law_selection_keeps_the_overlapping_blocks(b.drop_last(), r);
        assert(b.drop_last().push(b.last()) =~= b);
    } else {
        assert(selected(b, None) =~= b);
    }
}

/// The indices of the blocks whose ranges overlap `r`, in order.
pub open spec fn overlapping_indices(b: Seq<BlockView>, r: TextRange) -> Seq<int>
    decreases b.len(),
{
    if b.len() == 0 {
        seq![]
    } else {
        let rest = overlapping_indices(b.drop_last(), r);
        if b.last().range.meets(r) {
            rest.push(b.len() - 1)
        } else {
            rest
        }
    }
}

proof fn lemma_overlapping_indices(b: Seq<BlockView>, r: TextRange)
    ensures
        ({
            let sel = selected(b, Some(r));
            let idx = overlapping_indices(b, r);
            &&& sel.len() == idx.len()
            &&& forall|k: int|
                0 <= k < idx.len() ==> 0 <= #[trigger] idx[k] < b.len() && sel[k] == b[idx[k]]
                    && b[idx[k]].range.meets(r)
            &&& forall|k1: int, k2: int| 0 <= k1 < k2 < idx.len() ==> #[trigger] idx[k1] < #[trigger] idx[k2]
            &&& forall|i: int|
                0 <= i < b.len() && (#[trigger] b[i]).range.meets(r) ==> exists|k: int|
                    0 <= k < idx.len() && #[trigger] idx[k] == i
        }),
    decreases b.len(),
{
    if b.len() > 0 {
        let init = b.drop_last();
        lemma_overlapping_indices(init, r);
        let rest = overlapping_indices(init, r);
        let idx = overlapping_indices(b, r);
        assert forall|k: int| 0 <= k < rest.len() implies init[rest[k]] == b[rest[k]] by {}
        assert forall|i: int| 0 <= i < b.len() && (#[trigger] b[i]).range.meets(r) implies exists|k: int|
            0 <= k < idx.len() && #[trigger] idx[k] == i by {
            if i < init.len() {
                assert(init[i] == b[i]);
                let k = choose|k: int| 0 <= k < rest.len() && #[trigger] rest[k] == i;
                assert(idx[k] == i);
            } else {
                assert(idx[idx.len() - 1] == i);
            }
        }
    }
}

/// Rendering a byte range gives, in order, exactly the blocks whose ranges overlap it, each
/// with what the whole document gives for that block.
pub proof fn law_range_renders_the_overlapping_blocks(
    b: Seq<BlockView>,
    r: TextRange,
    m: MetadataView,
    base: RenderOptions,
    path: Option<Seq<char>>,
    cwd: Option<Seq<char>>,
)
    ensures
        ({
            let part = contents(selected(b, Some(r)), m, base, path, cwd);
            let whole = contents(selected(b, None), m, base, path, cwd);
            let idx = overlapping_indices(b, r);
            &&& part.len() == idx.len()
            &&& forall|k: int|
                0 <= k < idx.len() ==> 0 <= #[trigger] idx[k] < whole.len() && part[k] == whole[idx[k]]
            &&& forall|k1: int, k2: int| 0 <= k1 < k2 < idx.len() ==> #[trigger] idx[k1] < #[trigger] idx[k2]
            &&& forall|i: int|
                0 <= i < b.len() ==> ((#[trigger] b[i]).range.meets(r) <==> exists|k: int|
                    0 <= k < idx.len() && #[trigger] idx[k] == i)
        }),
{
    lemma_overlapping_indices(b, r);
    law_selection_keeps_the_overlapping_blocks(b, r);
    let idx = overlapping_indices(b, r);
    assert forall|i: int| 0 <= i < b.len() implies ((#[trigger] b[i]).range.meets(r) <==> exists|k: int|
        0 <= k < idx.len() && #[trigger] idx[k] == i) by {
        if exists|k: int| 0 <= k < idx.len() && #[trigger] idx[k] == i {
            let k = choose|k: int| 0 <= k < idx.len() && #[trigger] idx[k] == i;
            assert(b[idx[k]].range.meets(r));
        }
    }
}

/// A rendered document, block by block: a statement becomes a display equation
/// `$$\n...\n$$` around its LaTeX and a figure has no LaTeX; with neither a block nor a
/// diagnostic the document carries only the empty-document note.
pub proof fn law_document_of_blocks(
    b: Seq<BlockView>,
    m: MetadataView,
    base: RenderOptions,
    path: Option<Seq<char>>,
    cwd: Option<Seq<char>>,
    input: Seq<DiagnosticView>,
    k: int,
)
    requires
        0 <= k < b.len(),
    ensures
        contents(b, m, base, path, cwd).len() == b.len(),
        b[k].kind is Math ==> ({
            let c = contents(b, m, base, path, cwd)[k];
            &&& c.latex is Some
            &&& c.markdown == "$$\n"@ + c.latex.unwrap() + "\n$$"@
            &&& c.kind == "math"@
        }),
        b[k].kind is Markdown ==> contents(b, m, base, path, cwd)[k].markdown == b[k].kind->content,
        b[k].kind is Image ==> contents(b, m, base, path, cwd)[k].latex is None,
        document_diags(input, contents(Seq::empty(), m, base, path, cwd)) == (if input.len() == 0 {
            seq![empty_diag()]
        } else {
            input
        }),
{
    reveal(block_content);
    let cs0 = contents(Seq::<BlockView>::empty(), m, base, path, cwd);
    assert(cs0.len() == 0);
    assert(content_diags(cs0) =~= Seq::<DiagnosticView>::empty());
    assert(input + content_diags(cs0) =~= input);
}


/// The number of `'\n'` characters in `s`.
pub open spec fn newline_count(s: Seq<char>) -> nat
    decreases s.len(),
{
    if s.len() == 0 {
        0
    } else {
        newline_count(s.drop_last()) + if s.last() == '\n' {
            1nat
        } else {
            0nat
        }
    }
}

proof fn lemma_line_count_is_newlines(s: Seq<char>)
    ensures
        line_char_starts(s).len() == newline_count(s) + 1,
    decreases s.len(),
{
    if s.len() > 0 {
        lemma_line_count_is_newlines(s.drop_last());
    }
}

proof fn lemma_start_follows_newline(s: Seq<char>, k: int)
    requires
        0 < k < line_char_starts(s).len(),
    ensures
        1 <= line_char_starts(s)[k] <= s.len(),
        s[line_char_starts(s)[k] - 1] == '\n',
        newline_count(s.take(line_char_starts(s)[k] - 1)) == k - 1,
    decreases s.len(),
{
    crate::ast::lemma_line_char_starts_bounds(s);
    crate::ast::lemma_line_char_starts_newline(s);
    if s.len() > 0 {
        let init = s.drop_last();
        crate::ast::lemma_line_char_starts_bounds(init);
        let c = line_char_starts(s)[k];
        if k < line_char_starts(init).len() {
            lemma_start_follows_newline(init, k);
            assert(line_char_starts(init)[k] == c);
            assert(s.take(c - 1) =~= init.take(c - 1));
        } else {
            lemma_line_count_is_newlines(init);
            assert(c == s.len());
            assert(s.take(c - 1) =~= init);
        }
    }
}


/// The number of newline bytes (`0x0A`) in `b`.
pub open spec fn newline_bytes(b: Seq<u8>) -> nat
    decreases b.len(),
{
    if b.len() == 0 {
        0
    } else {
        newline_bytes(b.drop_last()) + if b.last() == 10u8 {
            1nat
        } else {
            0nat
        }
    }
}

proof fn lemma_newline_bytes_append(x: Seq<u8>, y: Seq<u8>)
    ensures
        newline_bytes(x + y) == newline_bytes(x) + newline_bytes(y),
    decreases y.len(),
{
    if y.len() == 0 {
        assert(x + y =~= x);
    } else {
        lemma_newline_bytes_append(x, y.drop_last());
        assert((x + y).drop_last() =~= x + y.drop_last());
    }
}

proof fn lemma_scalar_newline_bytes(c: char)
    ensures
        newline_bytes(vstd::utf8::encode_scalar(c as u32)) == if c == '\n' {
            1nat
        } else {
            0nat
        },
{
    let v = c as u32;
    let e = vstd::utf8::encode_scalar(v);
    vstd::utf8::char_is_scalar(c);
    reveal_with_fuel(newline_bytes, 5);
    assert((c == '\n') == (v == 10u32));
    if v <= 0x7F {
        assert(((v & 0x7F) as u8 == 10u8) == (v == 10u32)) by (bit_vector)
            requires
                v <= 0x7F,
        ;
        assert(e.drop_last() =~= Seq::<u8>::empty());
    } else if v <= 0x7FF {
        assert(0xC0u8 | ((v >> 6) & 0x1F) as u8 != 10u8) by (bit_vector);
        assert(0x80u8 | (v & 0x3F) as u8 != 10u8) by (bit_vector);
        assert(e.drop_last().drop_last() =~= Seq::<u8>::empty());
    } else if vstd::utf8::has_width_3_encoding(v) {
        assert(0xE0u8 | ((v >> 12) & 0x0F) as u8 != 10u8) by (bit_vector);
        assert(0x80u8 | ((v >> 6) & 0x3F) as u8 != 10u8) by (bit_vector);
        assert(0x80u8 | (v & 0x3F) as u8 != 10u8) by (bit_vector);
        assert(e.drop_last().drop_last().drop_last() =~= Seq::<u8>::empty());
    } else {
        assert(0xF0u8 | ((v >> 18) & 0x7) as u8 != 10u8) by (bit_vector);
        assert(0x80u8 | ((v >> 12) & 0x3F) as u8 != 10u8) by (bit_vector);
        assert(0x80u8 | ((v >> 6) & 0x3F) as u8 != 10u8) by (bit_vector);
        assert(0x80u8 | (v & 0x3F) as u8 != 10u8) by (bit_vector);
        assert(e.drop_last().drop_last().drop_last().drop_last() =~= Seq::<u8>::empty());
    }
}

/// A source text has one line more than its UTF-8 bytes hold newline bytes: no byte of a
/// multi-byte character is `0x0A`, so the newline characters and bytes are the same count.
pub proof fn law_line_count_is_newline_bytes(s: Seq<char>)
    ensures
        line_char_starts(s).len() == newline_bytes(vstd::utf8::encode_utf8(s)) + 1,
    decreases s.len(),
{
    lemma_line_count_is_newlines(s);
    lemma_newline_chars_are_bytes(s);
}

proof fn lemma_newline_chars_are_bytes(s: Seq<char>)
    ensures
        newline_count(s) == newline_bytes(vstd::utf8::encode_utf8(s)),
    decreases s.len(),
{
    if s.len() > 0 {
        let init = s.drop_last();
        lemma_newline_chars_are_bytes(init);
        crate::ast::lemma_encode_utf8_append(init, seq![s.last()]);
        assert(init + seq![s.last()] =~= s);
        assert(seq![s.last()].drop_first() =~= Seq::<char>::empty());
        assert(vstd::utf8::encode_utf8(seq![s.last()]) =~= vstd::utf8::encode_scalar(s.last() as u32)
            + vstd::utf8::encode_utf8(Seq::<char>::empty()));
        assert(vstd::utf8::encode_utf8(seq![s.last()]) =~= vstd::utf8::encode_scalar(s.last() as u32));
        lemma_newline_bytes_append(vstd::utf8::encode_utf8(init), vstd::utf8::encode_scalar(s.last() as u32));
        lemma_scalar_newline_bytes(s.last());
    }
}
/// Line starts: a text has one line more than it has newlines; the first line starts at
/// byte 0, and line `j > 0` one byte after the `j`-th newline (the newline at character
/// index `line_char_starts(s)[j] - 1`, with `j - 1` newlines before it); the starts
/// increase and lie within the text.
pub proof fn law_line_starts(s: Seq<char>, i: int, j: int)
    requires
        0 <= i < j < line_byte_starts(s).len(),
    ensures
        line_byte_starts(s).len() == newline_count(s) + 1,
        line_byte_starts(s)[0] == 0,
        line_byte_starts(s)[i] < line_byte_starts(s)[j] <= utf8_len(s),
        ({
            let c = line_char_starts(s)[j] - 1;
            &&& 0 <= c < s.len()
            &&& s[c] == '\n'
            &&& newline_count(s.take(c)) == j - 1
            &&& line_byte_starts(s)[j] == utf8_len(s.take(c)) + 1
            &&& vstd::utf8::encode_utf8(s)[utf8_len(s.take(c)) as int] == 10u8
            &&& newline_bytes(vstd::utf8::encode_utf8(s).take(utf8_len(s.take(c)) as int)) == j - 1
        }),
        line_byte_starts(s).len() == newline_bytes(vstd::utf8::encode_utf8(s)) + 1,
{
    crate::ast::lemma_line_byte_starts_first(s);
    crate::ast::lemma_line_byte_starts_bounds(s);
    crate::ast::lemma_line_byte_starts_increasing(s);
    lemma_line_count_is_newlines(s);
    lemma_starts_sorted(line_byte_starts(s), i, j);
    lemma_start_follows_newline(s, j);
    let c = line_char_starts(s)[j] - 1;
    assert(s.take(c + 1).drop_last() =~= s.take(c));
    assert(s.take(c + 1).last() == s[c]);
    law_line_count_is_newline_bytes(s);
    let pre = s.take(c);
    let post = s.skip(c);
    assert(pre + post =~= s);
    crate::ast::lemma_encode_utf8_append(pre, post);
    crate::ast::lemma_encode_utf8_len(pre);
    let ep = vstd::utf8::encode_utf8(pre);
    let eq = vstd::utf8::encode_utf8(post);
    assert(post[0] == '\n');
    assert(eq == vstd::utf8::encode_scalar(post[0] as u32) + vstd::utf8::encode_utf8(post.drop_first()));
    assert((10u32 & 0x7F) as u8 == 10u8) by (bit_vector);
    assert(vstd::utf8::encode_scalar(10u32)[0] == 10u8);
    assert(vstd::utf8::encode_utf8(s)[ep.len() as int] == eq[0]);
    assert(vstd::utf8::encode_utf8(s).take(ep.len() as int) =~= ep);
    lemma_newline_chars_are_bytes(pre);
}

proof fn lemma_char_index_of_prefix(s: Seq<char>, c: int, k: int)
    requires
        0 <= k <= c <= s.len(),
    ensures
        crate::ast::char_index_from(s, utf8_len(s.take(c)) as int, k) == c,
    decreases c - k,
{
    if k < c {
        crate::ast::lemma_utf8_len_prefix_mono(s, k, c);
        lemma_char_index_of_prefix(s, c, k + 1);
    }
}

proof fn lemma_no_newline_inside(s: Seq<char>, k: int, x: int)
    requires
        0 <= k < line_char_starts(s).len(),
        line_char_starts(s)[k] <= x < line_char_end(s, k) - 1,
    ensures
        s[x] != '\n',
    decreases s.len(),
{
    crate::ast::lemma_line_char_starts_bounds(s);
    if s.len() > 0 {
        let init = s.drop_last();
        crate::ast::lemma_line_char_starts_bounds(init);
        crate::ast::lemma_line_char_starts_increasing(init);
        lemma_line_count_is_newlines(init);
        let n = line_char_starts(init).len();
        if s.last() == '\n' {
            if k < n - 1 {
                assert(line_char_end(init, k) == line_char_end(s, k));
                lemma_no_newline_inside(init, k, x);
            } else if k == n - 1 {
                assert(line_char_end(s, k) == s.len());
                if x < init.len() - 1 || (x == init.len() - 1 && init.len() > 0) {
                    if x < line_char_end(init, k) - 1 {
                        lemma_no_newline_inside(init, k, x);
                    } else {
                        assert(line_char_end(init, k) == init.len());
                        assert(x == init.len() - 1);
                        if s[x] == '\n' {
                            // a newline at the end of `init` would start a line there
                            assert(init.last() == '\n');
                            assert(line_char_starts(init)[n - 1] == init.len());
                            assert(false);
                        }
                    }
                }
            }
        } else {
            if k < n - 1 {
                assert(line_char_end(init, k) == line_char_end(s, k));
                lemma_no_newline_inside(init, k, x);
            } else {
                if x < init.len() - 1 {
                    lemma_no_newline_inside(init, k, x);
                } else if x == init.len() - 1 {
                    if s[x] == '\n' {
                        assert(init.last() == '\n');
                        assert(line_char_starts(init)[n - 1] == init.len());
                        assert(false);
                    }
                }
            }
        }
    }
}

/// The text of a line is the bytes from its start to the start of the next line (or the
/// end of the text) without the trailing `'\r'` and `'\n'` characters, and holds no
/// newline; past the last line there is no text.
pub proof fn law_line_text_is_its_byte_slice(s: Seq<char>, line: int)
    requires
        0 <= line,
    ensures
        line >= line_byte_starts(s).len() ==> line_text_spec(s, line) is None,
        line < line_byte_starts(s).len() ==> ({
            let t = crate::ast::trim_crlf_end(
                s.subrange(
                    crate::ast::char_index_of_byte(s, line_byte_starts(s)[line]),
                    crate::ast::char_index_of_byte(s, line_byte_end(s, line)),
                ),
            );
            &&& line_text_spec(s, line) == Some(t)
            &&& !t.contains('\n')
            &&& vstd::utf8::encode_utf8(
                s.subrange(
                    crate::ast::char_index_of_byte(s, line_byte_starts(s)[line]),
                    crate::ast::char_index_of_byte(s, line_byte_end(s, line)),
                ),
            ) == vstd::utf8::encode_utf8(s).subrange(line_byte_starts(s)[line], line_byte_end(s, line))
        }),
{
    crate::ast::lemma_line_byte_starts_first(s);
    crate::ast::lemma_line_char_starts_bounds(s);
    crate::ast::lemma_line_char_starts_increasing(s);
    if line < line_byte_starts(s).len() {
        let cs = line_char_starts(s);
        let a = cs[line];
        let e = line_char_end(s, line);
        lemma_char_index_of_prefix(s, a, 0);
        assert(line_byte_starts(s)[line] == utf8_len(s.take(a)));
        if line + 1 < cs.len() {
            assert(line_byte_end(s, line) == line_byte_starts(s)[line + 1]);
            lemma_char_index_of_prefix(s, e, 0);
        } else {
            assert(s.take(s.len() as int) =~= s);
            lemma_char_index_of_prefix(s, s.len() as int, 0);
        }
        let seg = s.subrange(a, e);
        lemma_encode_middle(s, a, e);
        crate::ast::lemma_trim_crlf_le(seg, seg.len() as int);
        let t = crate::ast::trim_crlf_end(seg);
        let n = crate::ast::trim_crlf_end_from(seg, seg.len() as int);
        if t.contains('\n') {
            let y = choose|y: int| 0 <= y < t.len() && t[y] == '\n';
            if y < seg.len() - 1 {
                lemma_no_newline_inside(s, line, a + y);
                assert(false);
            } else {
                // the last character of the segment is a newline, which trimming removes
                lemma_trim_drops_last_newline(seg);
                assert(false);
            }
        }
    }
}


/// The characters from index `a` to `e` encode to the bytes between their byte offsets.
proof fn lemma_encode_middle(s: Seq<char>, a: int, e: int)
    requires
        0 <= a <= e <= s.len(),
    ensures
        vstd::utf8::encode_utf8(s.subrange(a, e)) == vstd::utf8::encode_utf8(s).subrange(
            utf8_len(s.take(a)) as int,
            utf8_len(s.take(e)) as int,
        ),
{
    let x = s.take(a);
    let y = s.subrange(a, e);
    let z = s.skip(e);
    assert(s =~= x + y + z);
    assert(s.take(e) =~= x + y);
    crate::ast::lemma_encode_utf8_append(x + y, z);
    crate::ast::lemma_encode_utf8_append(x, y);
    crate::ast::lemma_encode_utf8_len(x);
    crate::ast::lemma_encode_utf8_len(x + y);
    let ex = vstd::utf8::encode_utf8(x);
    let ey = vstd::utf8::encode_utf8(y);
    let ez = vstd::utf8::encode_utf8(z);
    assert(vstd::utf8::encode_utf8(s) == ex + ey + ez);
    assert((ex + ey + ez).subrange(ex.len() as int, (ex.len() + ey.len()) as int) =~= ey);
}

proof fn lemma_trim_drops_last_newline(seg: Seq<char>)
    requires
        seg.len() > 0,
        seg.last() == '\n',
    ensures
        crate::ast::trim_crlf_end_from(seg, seg.len() as int) < seg.len(),
{
    crate::ast::lemma_trim_crlf_le(seg, seg.len() - 1);
}


proof fn lemma_find_none(s: Seq<char>, p: Seq<char>, i: int, j: int)
    requires
        find_from(s, p, i) is None,
        0 <= i <= j,
        j + p.len() <= s.len(),
    ensures
        s.subrange(j, j + p.len()) != p,
    decreases j - i,
{
    if i < j {
        if s.subrange(i, i + p.len()) != p {
            lemma_find_none(s, p, i + 1, j);
        }
    }
}

proof fn lemma_find_first(s: Seq<char>, p: Seq<char>, i: int, n: int)
    requires
        0 <= i <= n,
        n + p.len() <= s.len(),
        s.subrange(n, n + p.len()) == p,
        forall|j: int| i <= j < n ==> #[trigger] s.subrange(j, j + p.len()) != p,
    ensures
        find_from(s, p, i) == Some(n),
    decreases n - i,
{
    if i < n {
        assert(s.subrange(i, i + p.len()) != p);
        lemma_find_first(s, p, i + 1, n);
    }
}

/// The first `::` of `a + "::" + rest` is the one after `a`, where `a` followed by a colon
/// holds no `::`.
proof fn lemma_first_pair_mark(a: Seq<char>, rest: Seq<char>)
    requires
        !contains(a + seq![':'], seq![':', ':']),
    ensures
        find(a + seq![':', ':'] + rest, seq![':', ':']) == Some(a.len() as int),
{
    let cc = seq![':', ':'];
    let s = a + cc + rest;
    let ac = a + seq![':'];
    assert forall|j: int| 0 <= j < a.len() implies #[trigger] s.subrange(j, j + 2) != cc by {
        assert(s.subrange(j, j + 2) =~= ac.subrange(j, j + 2));
        lemma_find_none(ac, cc, 0, j);
    }
    assert(s.subrange(a.len() as int, a.len() + 2int) =~= cc);
    lemma_find_first(s, cc, 0, a.len() as int);
}

/// Lookup pairs, left to right: where `a` (followed by a colon) holds no `::` and neither
/// does `q`, the text `a::q::r` expands to `a`, then what the query `q` gives (its symbol, or
/// `::q::` as it was when it names none), then the expansion of `r`.
pub proof fn law_expansion_pairs(a: Seq<char>, q: Seq<char>, r: Seq<char>)
    requires
        !contains(a + seq![':'], seq![':', ':']),
        !contains(q + seq![':'], seq![':', ':']),
    ensures
        expand_spec(a + seq![':', ':'] + q + seq![':', ':'] + r) == a + expansion_of(q)
            + expand_spec(r),
{
    let cc = seq![':', ':'];
    let s = a + cc + q + cc + r;
    lemma_first_pair_mark(a, q + cc + r);
    assert(s =~= a + cc + (q + cc + r));
    let after = s.skip(a.len() + 2int);
    assert(after =~= q + cc + r);
    lemma_first_pair_mark(q, r);
    assert(after.take(q.len() as int) =~= q);
    assert(after.skip(q.len() + 2int) =~= r);
    assert(s.take(a.len() as int) =~= a);
}

/// A `::` that no later `::` closes is kept as it is, with the text after it.
pub proof fn law_unclosed_lookup_is_kept(a: Seq<char>, r: Seq<char>)
    requires
        !contains(a + seq![':'], seq![':', ':']),
        !contains(r, seq![':', ':']),
    ensures
        expand_spec(a + seq![':', ':'] + r) == a + seq![':', ':'] + r,
{
    let cc = seq![':', ':'];
    let s = a + cc + r;
    lemma_first_pair_mark(a, r);
    assert(s.skip(a.len() + 2int) =~= r);
}

/// Whether entry `e` answers a lookup by `path` (where given) or else by `alias`.
pub open spec fn entry_answers(e: SymbolLookupEntryView, path: Option<Seq<Seq<char>>>, alias: Seq<char>) -> bool {
    match path {
        Some(p) => e.path == p,
        None => e.aliases.contains(alias),
    }
}

proof fn lemma_first_entry(t: Seq<SymbolLookupEntryView>, i: int, path: Option<Seq<Seq<char>>>, alias: Seq<char>)
    requires
        0 <= i,
    ensures
        match first_entry_from(t, i, path, alias) {
            Some(e) => exists|k: int|
                i <= k < t.len() && #[trigger] t[k] == e && entry_answers(t[k], path, alias)
                    && forall|j: int| i <= j < k ==> !entry_answers(#[trigger] t[j], path, alias),
            None => forall|j: int| i <= j < t.len() ==> !entry_answers(#[trigger] t[j], path, alias),
        },
    decreases t.len() - i,
{
    if i < t.len() && !entry_answers(t[i], path, alias) {
        lemma_first_entry(t, i + 1, path, alias);
        match first_entry_from(t, i + 1, path, alias) {
            Some(e) => {
                let k = choose|k: int|
                    i + 1 <= k < t.len() && #[trigger] t[k] == e && entry_answers(t[k], path, alias)
                        && forall|j: int| i + 1 <= j < k ==> !entry_answers(#[trigger] t[j], path, alias);
                assert forall|j: int| i <= j < k implies !entry_answers(#[trigger] t[j], path, alias) by {
                    if j > i {
                        assert(i + 1 <= j < k);
                    }
                }
            },
            None => {},
        }
    }
}

/// Resolving a lookup searches the table in order: a blank query finds nothing; a query
/// that starts with `/` finds the first entry whose path is its non-empty `/`-separated
/// pieces; any other finds the first entry that has the (trimmed) query as an alias; and
/// nothing is found exactly when no entry answers.
pub proof fn law_resolution_searches_the_table(query: Seq<char>)
    ensures
        ({
            let q = trim(query);
            let path = if starts_with(q, seq!['/']) {
                Some(nonempty_pieces(crate::text::split_char(q.skip(1), '/')))
            } else {
                None
            };
            let alias = if starts_with(q, seq!['/']) {
                seq![]
            } else {
                q
            };
            let t = lookup_table();
            &&& q.len() == 0 ==> resolve_spec(query) is None
            &&& q.len() > 0 ==> match resolve_spec(query) {
                Some(e) => exists|k: int|
                    0 <= k < t.len() && #[trigger] t[k] == e && entry_answers(t[k], path, alias)
                        && forall|j: int| 0 <= j < k ==> !entry_answers(#[trigger] t[j], path, alias),
                None => forall|j: int| 0 <= j < t.len() ==> !entry_answers(#[trigger] t[j], path, alias),
            }
        }),
{
    let q = trim(query);
    if starts_with(q, seq!['/']) {
        lemma_first_entry(lookup_table(), 0, Some(nonempty_pieces(crate::text::split_char(q.skip(1), '/'))), seq![]);
    } else {
        lemma_first_entry(lookup_table(), 0, None, q);
    }
}


/// A block that stands at the top level of its line: the line exists, starts with neither a
/// space nor a tab, and the block's bytes start within it and end after its start, inside
/// the text.
pub open spec fn top_level_block(s: Seq<char>, x: BlockView) -> bool {
    let text = line_or_empty(s, x.line as int);
    &&& x.line < line_count_of(s)
    &&& text.len() > 0
    &&& text[0] != ' ' && text[0] != '\t'
    &&& line_byte_starts(s)[x.line as int] <= x.range.start < x.range.end <= utf8_len(s)
}

proof fn lemma_line_start_or_end_mono(s: Seq<char>, a: int, b: int)
    requires
        0 <= a <= b,
    ensures
        line_start_or_end(s, a) <= line_start_or_end(s, b) <= utf8_len(s),
{
    crate::ast::lemma_line_byte_starts_bounds(s);
    crate::ast::lemma_line_byte_starts_increasing(s);
    let n = line_byte_starts(s).len();
    if b < n {
        lemma_starts_sorted(line_byte_starts(s), a, b);
    }
}

proof fn lemma_line_end_byte(s: Seq<char>, line: int)
    requires
        0 <= line < line_count_of(s),
    ensures
        line_start_or_end(s, line + 1) == utf8_len(s.take(line_char_end(s, line))),
        line_byte_starts(s)[line] == utf8_len(s.take(crate::ast::line_char_starts(s)[line])),
{
    crate::ast::lemma_line_byte_starts_first(s);
    if line + 1 >= line_count_of(s) {
        assert(s.take(s.len() as int) =~= s);
    }
}

proof fn lemma_first_text_byte(s: Seq<char>, line: int)
    requires
        0 <= line < line_count_of(s),
        trim(line_or_empty(s, line)).len() > 0,
    ensures
        line_byte_starts(s)[line] <= first_text_byte(s, line) < line_start_or_end(s, line + 1),
{
    let cs = crate::ast::line_char_starts(s);
    let text = line_or_empty(s, line);
    let a = cs[line];
    crate::ast::lemma_line_text_within(s, line);
    crate::ast::lemma_line_char_starts_bounds(s);
    lemma_line_end_byte(s, line);
    crate::ast::lemma_line_byte_starts_first(s);
    let k = match find(text, trim(text)) {
        Some(k) => k,
        None => 0,
    };
    crate::text::lemma_find_in_bounds(text, trim(text), 0);
    assert(0 <= k < text.len());
    assert(text == s.subrange(a, a + text.len()));
    assert forall|x: int| 0 <= x < a + k implies #[trigger] s.take(a + k)[x] == (s.take(a) + text.take(k))[x] by {
        if x >= a {
            assert(text[x - a] == s[x]);
        }
    }
    assert(s.take(a + k) =~= s.take(a) + text.take(k));
    crate::text::lemma_utf8_len_append(s.take(a), text.take(k));
    crate::ast::lemma_utf8_len_prefix_mono(s, a + k, line_char_end(s, line));
}

proof fn lemma_step_block(s: Seq<char>, line: int, st: ScanState)
    requires
        0 <= line < line_count_of(s),
        utf8_len(s) <= usize::MAX,
        scan_step(s, line, st).2 is Some,
    ensures
        ({
            let (next, _, b) = scan_step(s, line, st);
            let x = b->0;
            &&& x.line == line
            &&& top_level_block(s, x)
            &&& x.range.end == line_start_or_end(s, next)
            &&& line < next
        }),
{
    reveal(scan_step);
    lemma_scan_step_advances(s, line, st);
    let text = line_or_empty(s, line);
    let trimmed = trim(text);
    crate::text::lemma_utf8_len_bounds(s);
    lemma_line_count(s);
    crate::ast::lemma_line_byte_starts_first(s);
    crate::ast::lemma_line_byte_starts_bounds(s);
    lemma_first_text_byte(s, line);
    let (next, _, b) = scan_step(s, line, st);
    lemma_line_start_or_end_mono(s, line + 1, next);
    lemma_indentation_ge(text, 1);
    let x = b->0;
    assert(indentation_spec(text) == 0);
    assert(text.len() > 0);
    assert(x.line == line);
    assert(x.range.start == first_text_byte(s, line));
    assert(x.range.end == line_start_or_end(s, next));
    assert(top_level_block(s, x));
}

proof fn lemma_indentation_ge(t: Seq<char>, i: int)
    requires
        0 <= i,
    ensures
        crate::scan::indentation_from(t, i) >= i,
    decreases t.len() - i,
{
    if 0 <= i < t.len() && (t[i] == ' ' || t[i] == '\t') {
        lemma_indentation_ge(t, i + 1);
    }
}

proof fn lemma_scan_from_blocks(s: Seq<char>, line: int, st: ScanState)
    requires
        0 <= line,
        utf8_len(s) <= usize::MAX,
    ensures
        forall|k: int|
            0 <= k < scan_from(s, line, st).len() ==> line <= (#[trigger] scan_from(s, line, st)[k]).line
                && top_level_block(s, scan_from(s, line, st)[k])
                && line_start_or_end(s, line) <= scan_from(s, line, st)[k].range.start,
        forall|i: int, j: int|
            0 <= i < j < scan_from(s, line, st).len() ==> (#[trigger] scan_from(s, line, st)[i]).line
                < (#[trigger] scan_from(s, line, st)[j]).line && scan_from(s, line, st)[i].range.end
                <= scan_from(s, line, st)[j].range.start,
    decreases line_count_of(s) + 1 - line,
{
    if line < line_count_of(s) {
        lemma_scan_step_advances(s, line, st);
        let (next, st2, b) = scan_step(s, line, st);
        lemma_scan_from_blocks(s, next, st2);
        let rest = scan_from(s, next, st2);
        let all = scan_from(s, line, st);
        lemma_line_start_or_end_mono(s, line, next);
        crate::ast::lemma_line_byte_starts_bounds(s);
        crate::ast::lemma_line_byte_starts_increasing(s);
        assert forall|k: int| 0 <= k < rest.len() implies line_start_or_end(s, next) <= (#[trigger] rest[k]).range.start by {
            let y = rest[k];
            lemma_line_start_or_end_mono(s, next, y.line as int);
        }
        match b {
            Some(x) => {
                lemma_step_block(s, line, st);
                lemma_line_start_or_end_mono(s, line, line);
                assert(all == seq![x] + rest);
                assert forall|k: int| 0 <= k < all.len() implies line <= (#[trigger] all[k]).line
                    && top_level_block(s, all[k]) && line_start_or_end(s, line) <= all[k].range.start by {
                    if k > 0 {
                        assert(all[k] == rest[k - 1]);
                    }
                }
                assert forall|i: int, j: int| 0 <= i < j < all.len() implies (#[trigger] all[i]).line
                    < (#[trigger] all[j]).line && all[i].range.end <= all[j].range.start by {
                    assert(all[j] == rest[j - 1]);
                    if i > 0 {
                        assert(all[i] == rest[i - 1]);
                    }
                }
            },
            None => {
                assert(all == rest);
            },
        }
    }
}

/// The scanner's blocks are top-level, sorted and disjoint: each stands on an unindented
/// line of the text, starts within that line and ends after it starts, and a later block
/// stands on a later line and starts where an earlier one has ended or after.
pub proof fn law_blocks_are_top_level_sorted_disjoint(s: Seq<char>, i: int, j: int)
    requires
        utf8_len(s) <= usize::MAX,
        0 <= i < scan_spec(s).len(),
        0 <= j < scan_spec(s).len(),
    ensures
        top_level_block(s, scan_spec(s)[i]),
        i < j ==> scan_spec(s)[i].line < scan_spec(s)[j].line && scan_spec(s)[i].range.end
            <= scan_spec(s)[j].range.start,
{
    lemma_scan_from_blocks(s, 0, initial_scan_state());
    let b = scan_spec(s);
    assert(b[i] == scan_from(s, 0, initial_scan_state())[i]);
    if i < j {
        assert(b[j] == scan_from(s, 0, initial_scan_state())[j]);
    }
}


proof fn lemma_find_absent(s: Seq<char>, p: Seq<char>, i: int)
    requires
        0 <= i,
        forall|j: int| i <= j && j + p.len() <= s.len() ==> #[trigger] s.subrange(j, j + p.len()) != p,
    ensures
        find_from(s, p, i) is None,
    decreases s.len() + 1 - i,
{
    if i + p.len() <= s.len() {
        assert(s.subrange(i, i + p.len()) != p);
        lemma_find_absent(s, p, i + 1);
    }
}

proof fn lemma_find_earlier(s: Seq<char>, p: Seq<char>, i: int, j: int)
    requires
        0 <= i <= j,
        find_from(s, p, i) matches Some(k) && j < k,
    ensures
        s.subrange(j, j + p.len()) != p,
    decreases j - i,
{
    if i < j {
        lemma_find_earlier(s, p, i + 1, j);
    }
}

/// Text `u` that holds no `::` even with a colon after it passes through expansion as it is,
/// whatever follows it.
proof fn lemma_expand_after_plain(u: Seq<char>, v: Seq<char>)
    requires
        !contains(u + seq![':'], seq![':', ':']),
    ensures
        expand_spec(u + v) == u + expand_spec(v),
{
    let cc = seq![':', ':'];
    let uc = u + seq![':'];
    let w = u + v;
    assert forall|j: int| 0 <= j < u.len() && j + 2 <= w.len() implies #[trigger] w.subrange(j, j + 2) != cc by {
        lemma_find_none(uc, cc, 0, j);
        if j + 1 < u.len() {
            assert(w.subrange(j, j + 2) =~= uc.subrange(j, j + 2));
        } else {
            assert(uc.subrange(j, j + 2) =~= seq![u[j], ':']);
            assert(u[j] != ':');
            assert(w[j] == u[j]);
        }
    }
    match find(v, cc) {
        None => {
            assert forall|j: int| 0 <= j && j + 2 <= w.len() implies #[trigger] w.subrange(j, j + 2) != cc by {
                if j >= u.len() {
                    assert(w.subrange(j, j + 2) =~= v.subrange(j - u.len(), j - u.len() + 2));
                    lemma_find_none(v, cc, 0, j - u.len());
                }
            }
            lemma_find_absent(w, cc, 0);
        },
        Some(f) => {
            crate::text::lemma_find_in_bounds(v, cc, 0);
            assert(w.subrange(u.len() + f, u.len() + f + 2) =~= v.subrange(f, f + 2));
            assert forall|j: int| 0 <= j < u.len() + f implies #[trigger] w.subrange(j, j + 2) != cc by {
                if j >= u.len() {
                    assert(w.subrange(j, j + 2) =~= v.subrange(j - u.len(), j - u.len() + 2));
                    lemma_find_earlier(v, cc, 0, j - u.len());
                }
            }
            lemma_find_first(w, cc, 0, u.len() + f);
            assert(w.skip(u.len() + f + 2) =~= v.skip(f + 2));
            assert(w.take(u.len() + f) =~= u + v.take(f));
            let after = v.skip(f + 2);
            match find(after, cc) {
                None => {
                    assert(expand_spec(w) == w);
                    assert(expand_spec(v) == v);
                },
                Some(e) => {
                    crate::text::lemma_find_in_bounds(after, cc, 0);
                    assert(expand_spec(w) == w.take(u.len() + f) + expansion_of(after.take(e))
                        + expand_spec(after.skip(e + 2)));
                    assert(expand_spec(v) == v.take(f) + expansion_of(after.take(e))
                        + expand_spec(after.skip(e + 2)));
                    assert(u + v.take(f) + expansion_of(after.take(e)) + expand_spec(after.skip(e + 2))
                        =~= u + (v.take(f) + expansion_of(after.take(e)) + expand_spec(after.skip(e + 2))));
                },
            }
        },
    }
}

proof fn lemma_no_pair_mark_before(s: Seq<char>, start: int)
    requires
        find(s, seq![':', ':']) == Some(start),
    ensures
        !contains(s.take(start) + seq![':'], seq![':', ':']),
{
    let cc = seq![':', ':'];
    crate::text::lemma_find_in_bounds(s, cc, 0);
    let ac = s.take(start) + seq![':'];
    assert(ac =~= s.take(start + 1));
    assert forall|j: int| 0 <= j && j + 2 <= ac.len() implies #[trigger] ac.subrange(j, j + 2) != cc by {
        assert(ac.subrange(j, j + 2) =~= s.subrange(j, j + 2));
        lemma_find_earlier(s, cc, 0, j);
    }
    lemma_find_absent(ac, cc, 0);
}

proof fn lemma_symbols_have_no_colon(q: Seq<char>)
    ensures
        resolve_spec(q) matches Some(e) ==> e.insert_text.len() == 1 && e.insert_text[0] != ':',
{
    law_resolution_searches_the_table(q);
    let t = lookup_table();
    assert forall|k: int| 0 <= k < t.len() implies (#[trigger] t[k]).insert_text.len() == 1
        && t[k].insert_text[0] != ':' by {
        assert(t[k] == crate::metadata::lookup_entry_spec(crate::metadata::greek_letters()[k].0, crate::metadata::greek_letters()[k].1));
    }
}

/// Expansion is idempotent: expanding an expanded text changes nothing more, since a symbol
/// holds no colon and a query that names nothing is kept as it was.
pub proof fn law_expansion_is_idempotent(s: Seq<char>)
    ensures
        expand_spec(expand_spec(s)) == expand_spec(s),
    decreases s.len(),
{
    let cc = seq![':', ':'];
    match find(s, cc) {
        None => {},
        Some(start) => {
            crate::text::lemma_find_in_bounds(s, cc, 0);
            let after = s.skip(start + 2);
            match find(after, cc) {
                None => {},
                Some(end) => {
                    crate::text::lemma_find_in_bounds(after, cc, 0);
                    let a = s.take(start);
                    let q = after.take(end);
                    let r = after.skip(end + 2);
                    lemma_no_pair_mark_before(s, start);
                    lemma_no_pair_mark_before(after, end);
                    law_expansion_is_idempotent(r);
                    let er = expand_spec(r);
                    lemma_symbols_have_no_colon(q);
                    match resolve_spec(q) {
                        Some(e) => {
                            let t = e.insert_text;
                            let u = a + t;
                            let uc = u + seq![':'];
                            assert forall|j: int| 0 <= j && j + 2 <= uc.len() implies #[trigger] uc.subrange(j, j + 2) != cc by {
                                if j + 2 <= a.len() {
                                    assert(uc.subrange(j, j + 2) =~= (a + seq![':']).subrange(j, j + 2));
                                    lemma_find_none(a + seq![':'], cc, 0, j);
                                } else if j + 1 == a.len() {
                                    assert(uc[j + 1] == t[0]);
                                } else {
                                    assert(uc[j] == t[0]);
                                }
                            }
                            lemma_find_absent(uc, cc, 0);
                            assert(expand_spec(s) == a + t + er);
                            lemma_expand_after_plain(u, er);
                        },
                        None => {
                            assert(expand_spec(s) == a + (cc + q + cc) + er);
                            assert(a + (cc + q + cc) + er =~= a + cc + q + cc + er);
                            law_expansion_pairs(a, q, er);
                        },
                    }
                },
            }
        },
    }
}

/// Text without `::` comes out of lookup expansion unchanged.
pub proof fn law_expansion_without_lookups(s: Seq<char>)
    requires
        !contains(s, seq![':', ':']),
    ensures
        expand_spec(s) == s,
{
}

proof fn lemma_matching_all(e: Seq<SymbolLookupEntryView>)
    ensures
        matching(e, seq![]) == e,
    decreases e.len(),
{
    if e.len() > 0 {
        lemma_matching_all(e.drop_last());
        assert(lookup_matches(e.last(), seq![]));
        assert(e.drop_last().push(e.last()) =~= e);
    }
}

/// Completion for an empty query offers every known symbol, in table order.
pub proof fn law_empty_query_offers_every_symbol()
    ensures
        matching(lookup_table(), seq![]) == lookup_table(),
{
    lemma_matching_all(lookup_table());
}

/// The entries that completion offers are exactly those that match the query.
pub proof fn law_offered_entries_match(e: Seq<SymbolLookupEntryView>, q: Seq<char>, k: int)
    requires
        0 <= k < matching(e, q).len(),
    ensures
        lookup_matches(matching(e, q)[k], q),
        e.contains(matching(e, q)[k]),
    decreases e.len(),
{
    if e.len() > 0 {
        let rest = matching(e.drop_last(), q);
        if lookup_matches(e.last(), q) && k == rest.len() {
            assert(e[e.len() - 1] == e.last());
        } else {
            law_offered_entries_match(e.drop_last(), q, k);
            let x = matching(e.drop_last(), q)[k];
            let i = choose|i: int| 0 <= i < e.drop_last().len() && e.drop_last()[i] == x;
            assert(e[i] == x);
        }
    }
}

/// A figure source that is not a local relative path (a URL, a `data:` URI, an anchor or an
/// absolute path) is written into the Markdown as it is, wherever the source file and the
/// working directory are.
pub proof fn law_non_local_figures_unchanged(src: Seq<char>, path: Option<Seq<char>>, cwd: Option<Seq<char>>)
    requires
        !is_local_relative(src),
    ensures
        resolve_figure_spec(src, path, cwd) == src,
{
}

/// Without a source file, every figure source is written as it is.
pub proof fn law_figures_without_source_file_unchanged(src: Seq<char>, cwd: Option<Seq<char>>)
    ensures
        resolve_figure_spec(src, None, cwd) == src,
{
}

/// A project configuration whose `auto_name` is a boolean and that has no `[render]` table
/// turns both automatic namings on or off together, whatever the options were.
pub proof fn law_auto_name_switches_both(o: RenderOptions, v: TomlValue, b: bool)
    requires
        get(v, "auto_name"@) == Some(TomlValue::Boolean(b)),
        get(v, "render"@) is None,
    ensures
        options_from_config(o, v) == both(b),
{
}

proof fn lemma_absolute_target(c: Seq<Seq<char>>, w: Seq<char>)
    requires
        w.len() > 0 && w[0] == '/',
        forall|i: int| 0 <= i < c.len() ==> is_component(#[trigger] c[i]),
    ensures
        absolutize(c, Some(w)).0,
        forall|i: int| 0 <= i < absolutize(c, Some(w)).1.len() ==> is_name(
            #[trigger] absolutize(c, Some(w)).1[i],
        ),
{
    let wc = path_components(w);
    lemma_components_ok(w);
    assert(wc[0] == seq!['/']);
    if c.len() > 0 && c[0] == seq!['/'] {
        lemma_root_first((false, seq![]), c);
        lemma_fold_keeps_names((false, seq![]), c);
    } else {
        let all = wc + c;
        assert(all[0] == seq!['/']);
        assert forall|i: int| 0 <= i < all.len() implies is_component(#[trigger] all[i]) by {
            if i < wc.len() {
                assert(all[i] == wc[i]);
            } else {
                assert(all[i] == c[i - wc.len()]);
            }
        }
        lemma_root_first((false, seq![]), all);
        lemma_fold_keeps_names((false, seq![]), all);
    }
}


/// Without a working directory, a local figure is written as the source file's directory
/// joined with it and normalized.
pub proof fn law_figure_path_without_working_directory(src: Seq<char>, p: Seq<char>)
    requires
        is_local_relative(src),
        parent_components(path_components(p)) is Some,
    ensures
        resolve_figure_spec(src, Some(p), None) == path_text(
            normalize(parent_components(path_components(p))->0 + path_components(src)),
        ),
{
}


proof fn lemma_normalize_rooted_names(names: Seq<Seq<char>>)
    requires
        forall|i: int| 0 <= i < names.len() ==> is_name(#[trigger] names[i]),
    ensures
        normalize(seq![seq!['/']] + names) == (true, names),
{
    let root = seq![seq!['/']];
    lemma_fold_append((false, seq![]), root, names);
    assert(root.drop_last() =~= Seq::<Seq<char>>::empty());
    assert(norm_fold((false, seq![]), root.drop_last()) == (false, Seq::<Seq<char>>::empty()));
    assert(root.last() == seq!['/']);
    assert(norm_fold((false, seq![]), root) == (true, Seq::<Seq<char>>::empty()));
    lemma_fold_names((true, seq![]), names);
    assert(Seq::<Seq<char>>::empty() + names =~= names);
}

proof fn lemma_shared_prefix(a: Seq<Seq<char>>, b: Seq<Seq<char>>, i: int)
    requires
        0 <= i <= a.len() <= b.len(),
        b.take(a.len() as int) == a,
    ensures
        shared_from(a, b, i) == a.len(),
    decreases a.len() - i,
{
    if i < a.len() {
        assert(b.take(a.len() as int)[i] == b[i]);
        lemma_shared_prefix(a, b, i + 1);
    }
}

/// A figure beside a source file that lies under the working directory is written relative
/// to it: where the working directory is the root and the names `cs`, the source file the
/// root, `cs`, the names `ds` and a file name, and the figure source the names `ss`, the
/// figure is written as `ds` then `ss`, joined by `/` (`plots/loss.png` in `docs/report.py`
/// gives `docs/plots/loss.png`).
pub proof fn law_figure_under_working_directory(
    src: Seq<char>,
    p: Seq<char>,
    w: Seq<char>,
    cs: Seq<Seq<char>>,
    ds: Seq<Seq<char>>,
    file: Seq<char>,
    ss: Seq<Seq<char>>,
)
    requires
        is_local_relative(src),
        path_components(w) == seq![seq!['/']] + cs,
        path_components(p) == seq![seq!['/']] + cs + ds + seq![file],
        path_components(src) == ss,
        ss.len() > 0,
        is_name(file),
        forall|i: int| 0 <= i < cs.len() ==> is_name(#[trigger] cs[i]),
        forall|i: int| 0 <= i < ds.len() ==> is_name(#[trigger] ds[i]),
        forall|i: int| 0 <= i < ss.len() ==> is_name(#[trigger] ss[i]),
    ensures
        resolve_figure_spec(src, Some(p), Some(w)) == join(ds + ss, seq!['/']),
{
    let root = seq![seq!['/']];
    let pc = path_components(p);
    assert(pc.last() == file);
    if file == seq!['/'] {
        assert(file[0] == '/');
    }
    assert(file != seq!['/']);
    assert(pc.drop_last() =~= root + cs + ds);
    let dir = root + cs + ds;
    let all = dir + ss;
    assert(all =~= root + (cs + ds + ss));
    let names = cs + ds + ss;
    assert forall|i: int| 0 <= i < names.len() implies is_name(#[trigger] names[i]) by {
        if i < cs.len() {
            assert(names[i] == cs[i]);
        } else if i < cs.len() + ds.len() {
            assert(names[i] == ds[i - cs.len()]);
        } else {
            assert(names[i] == ss[i - cs.len() - ds.len()]);
        }
    }
    lemma_normalize_rooted_names(names);
    lemma_normalize_rooted_names(cs);
    assert(all[0] == seq!['/']);
    assert(absolutize(all, Some(w)) == (true, names));
    assert((root + cs)[0] == seq!['/']);
    assert(absolutize(path_components(w), Some(w)) == (true, cs));
    let f = full_components((true, cs));
    let t = full_components((true, names));
    assert(f =~= root + cs);
    assert(t =~= root + names);
    assert(t.take(f.len() as int) =~= f);
    lemma_shared_prefix(f, t, 0);
    let rel = Seq::new(0nat, |i: int| seq!['.', '.']) + t.skip(f.len() as int);
    assert(rel =~= ds + ss);
}

/// A local figure path, resolved against the source file and written relative to an
/// absolute working directory, names the same file: joined back onto the working directory
/// and normalized, it is the file's directory joined with the source, made absolute.
pub proof fn law_figure_path_names_the_same_file(src: Seq<char>, p: Seq<char>, w: Seq<char>)
    requires
        is_local_relative(src),
        w.len() > 0 && w[0] == '/',
        parent_components(path_components(p)) is Some,
    ensures
        normalize(path_components(w) + path_components(resolve_figure_spec(src, Some(p), Some(w))))
            == absolutize(parent_components(path_components(p))->0 + path_components(src), Some(w)),
{
    let wc = path_components(w);
    let pc = path_components(p);
    let dir = parent_components(pc)->0;
    let sc = path_components(src);
    let joined = dir + sc;
    lemma_components_ok(w);
    lemma_components_ok(p);
    lemma_components_ok(src);
    assert(wc[0] == seq!['/']);
    assert forall|i: int| 0 <= i < joined.len() implies is_component(#[trigger] joined[i]) by {
        if i < dir.len() {
            assert(joined[i] == pc[i]);
        } else {
            assert(joined[i] == sc[i - dir.len()]);
        }
    }
    let target = absolutize(joined, Some(w));
    lemma_absolute_target(joined, w);
    assert(absolutize(wc, Some(w)) == normalize(wc));
    let base = normalize(wc);
    lemma_root_first((false, seq![]), wc);
    lemma_fold_keeps_names((false, seq![]), wc);
    let b = base.1;
    let t_names = target.1;
    let f = full_components(base);
    let t = full_components(target);
    assert(f[0] == seq!['/'] && t[0] == seq!['/']);
    lemma_shared(f, t, 0);
    let k = shared_from(f, t, 0);
    assert(k >= 1) by {
        lemma_shared(f, t, 1);
    }
    let n = (f.len() - k) as nat;
    let rel0 = ups(n) + t.skip(k);
    assert(t.skip(k) =~= t_names.skip(k - 1));
    assert(relative_components(base, target) == Some(
        if rel0.len() == 0 {
            seq![seq!['.']]
        } else {
            rel0
        },
    ));
    if rel0.len() == 0 {
        assert(f.len() == k && t.len() == k);
        assert(b =~= t_names) by {
            assert forall|i: int| 0 <= i < b.len() implies b[i] == t_names[i] by {
                assert(f[i + 1] == t[i + 1]);
            }
        }
        let dot = seq![seq!['.']];
        lemma_components_of_join(dot);
        lemma_fold_append((false, seq![]), wc, dot);
        assert(dot.drop_last() =~= Seq::<Seq<char>>::empty());
        assert(resolve_figure_spec(src, Some(p), Some(w)) == join(dot, seq!['/']));
        assert(norm_fold(base, dot.drop_last()) == base);
        assert(dot.last() == seq!['.']);
        assert(seq!['.'] != seq!['/']) by {
            assert(seq!['.'][0] != seq!['/'][0]);
        }
        assert(norm_fold(base, dot) == base);
        assert(base == target);
    } else {
        assert forall|i: int| 0 <= i < rel0.len() implies (#[trigger] rel0[i]).len() > 0
            && !rel0[i].contains('/') && rel0[i] != seq!['.'] by {
            if i < n {
                assert(rel0[i] == seq!['.', '.']);
                if rel0[i].contains('/') {
                    let j = choose|j: int| 0 <= j < rel0[i].len() && rel0[i][j] == '/';
                    assert(rel0[i][j] == '.');
                }
                assert(seq!['.', '.'].len() != seq!['.'].len());
            } else {
                assert(rel0[i] == t_names[i - n + k - 1]);
                assert(is_name(t_names[i - n + k - 1]));
            }
        }
        lemma_components_of_join(rel0);
        lemma_fold_append((false, seq![]), wc, rel0);
        lemma_fold_append(base, ups(n), t.skip(k));
        lemma_fold_ups(base, n);
        let kept = b.take(b.len() - n);
        assert(kept =~= t_names.take(k - 1)) by {
            assert forall|i: int| 0 <= i < kept.len() implies kept[i] == t_names[i] by {
                assert(f[i + 1] == t[i + 1]);
            }
        }
        assert forall|i: int| 0 <= i < t.skip(k).len() implies is_name(#[trigger] t.skip(k)[i]) by {
            assert(t.skip(k)[i] == t_names[i + k - 1]);
        }
        lemma_fold_names((base.0, kept), t.skip(k));
        assert(kept + t.skip(k) =~= t_names);
        assert(resolve_figure_spec(src, Some(p), Some(w)) == join(rel0, seq!['/']));
        assert(norm_fold(base, rel0) == target);
    }
}

/// Metadata priority for a name: the file's own annotations first, then the stub's, then the
/// sidecar's, then the built-ins.
pub proof fn law_metadata_priority(sidecar: Option<MetadataView>, stub: Option<Seq<char>>, source: Seq<char>, name: Seq<char>)
    ensures
        ({
            let m = loaded_view(sidecar, stub, source);
            let own = inline_view(source);
            let from_stub = match stub {
                Some(t) => Some(inline_view(t)),
                None => None,
            };
            &&& own.symbols.contains_key(name) ==> m.symbols.contains_key(name)
                && m.symbols[name] == own.symbols[name]
            &&& own.functions.contains_key(name) ==> m.functions.contains_key(name)
                && m.functions[name] == own.functions[name]
            &&& !own.symbols.contains_key(name) && from_stub is Some
                && from_stub->0.symbols.contains_key(name) ==> m.symbols[name]
                == from_stub->0.symbols[name]
            &&& !own.functions.contains_key(name) && from_stub is Some
                && from_stub->0.functions.contains_key(name) ==> m.functions[name]
                == from_stub->0.functions[name]
            &&& !own.symbols.contains_key(name) && (from_stub is None || !from_stub->0.symbols.contains_key(name))
                && sidecar is Some && sidecar->0.symbols.contains_key(name) ==> m.symbols[name]
                == sidecar->0.symbols[name]
            &&& !own.functions.contains_key(name) && (from_stub is None
                || !from_stub->0.functions.contains_key(name)) && sidecar is Some
                && sidecar->0.functions.contains_key(name) ==> m.functions[name]
                == sidecar->0.functions[name]
            &&& !own.functions.contains_key(name) && (from_stub is None
                || !from_stub->0.functions.contains_key(name)) && (sidecar is None
                || !sidecar->0.functions.contains_key(name)) ==> (m.functions.contains_key(name)
                <==> builtins_view().functions.contains_key(name))
            &&& !own.functions.contains_key(name) && (from_stub is None
                || !from_stub->0.functions.contains_key(name)) && (sidecar is None
                || !sidecar->0.functions.contains_key(name)) && builtins_view().functions.contains_key(
                name,
            ) ==> m.functions[name] == builtins_view().functions[name]
        }),
{
}

} // verus!
