//! Markdown documents: each renderable block becomes Markdown (prose as it is, a statement
//! as a display equation, a figure as an image), in document order.
use vstd::prelude::*;
use crate::ast::{
    diags_view, opt_view, position_at_spec, BlockKind, BlockKindView, BlockView, Diagnostic,
    DiagnosticSeverity, DiagnosticView, Position, Range, RenderConfig, RenderableBlock,
    SourceFile, TextRange,
};
use crate::ir::{lower_statement, lower_view, LoweredStatement};
use crate::latex::{render_statement, render_statement_spec, RenderOptions};
use crate::metadata::{pieces_view, MetadataIndex, MetadataView};
use crate::paths::{resolve_figure_spec, resolve_figure_src};
use crate::text::{chars_of, join, push_all, push_str, replace_char, string_of};

verus! {

/// One rendered block: its kind (`markdown`, `math` or `image`), where it stands, its
/// Markdown, its LaTeX (for math) and its diagnostics.
#[derive(Debug, Clone)]
pub struct RenderedBlock {
    pub kind: String,
    pub range: Range,
    pub markdown: String,
    pub latex: Option<String>,
    pub diagnostics: Vec<Diagnostic>,
}

/// A rendered document: the blocks, their Markdown joined by blank lines, and all
/// diagnostics.
#[derive(Debug, Clone)]
pub struct RenderedDocument {
    pub kind: String,
    pub range: Range,
    pub markdown: String,
    pub blocks: Vec<RenderedBlock>,
    pub diagnostics: Vec<Diagnostic>,
}

impl RenderedDocument {
    /// A Markdown document with no content, at the start of the text.
    pub fn empty() -> (d: RenderedDocument)
        ensures
            d.kind@ == "markdown"@,
            d.range == (Range {
                start: Position { line: 0, character: 0 },
                end: Position { line: 0, character: 0 },
            }),
            d.markdown@.len() == 0,
            d.blocks@.len() == 0,
            d.diagnostics@.len() == 0,
    {
        RenderedDocument {
            kind: "markdown".to_owned(),
            range: Range {
                start: Position { line: 0, character: 0 },
                end: Position { line: 0, character: 0 },
            },
            markdown: String::new(),
            blocks: Vec::new(),
            diagnostics: Vec::new(),
        }
    }
}

/// The options for one block: its configuration overrides the document's.
pub open spec fn block_options(base: RenderOptions, config: RenderConfig) -> RenderOptions {
    RenderOptions {
        underscore_subscripts: match config.auto_name_subscript {
            Some(b) => b,
            None => base.underscore_subscripts,
        },
        auto_name_symbol: match config.auto_name_symbol {
            Some(b) => b,
            None => base.auto_name_symbol,
        },
    }
}

/// The options for a block with the given configuration.
pub fn apply_block_config(base: &RenderOptions, config: RenderConfig) -> (r: RenderOptions)
    ensures
        r == block_options(*base, config),
{
    let mut options = *base;
    if let Some(enabled) = config.auto_name_subscript {
        options.underscore_subscripts = enabled;
    }
    if let Some(enabled) = config.auto_name_symbol {
        options.auto_name_symbol = enabled;
    }
    options
}

/// Image alt text: `\` and `]` escaped.
pub open spec fn escape_alt(v: Seq<char>) -> Seq<char> {
    replace_char(replace_char(v, '\\', "\\\\"@), ']', "\\]"@)
}

/// Image URL: spaces and `)` percent-encoded.
pub open spec fn escape_url(v: Seq<char>) -> Seq<char> {
    replace_char(replace_char(v, ' ', "%20"@), ')', "%29"@)
}

/// Image title: `\` and `"` escaped.
pub open spec fn escape_title(v: Seq<char>) -> Seq<char> {
    replace_char(replace_char(v, '\\', "\\\\"@), '"', "\\\""@)
}

/// `![alt](src "title")`, and the caption in italics after a blank line.
pub open spec fn image_markdown(src: Seq<char>, alt: Seq<char>, title: Option<Seq<char>>, caption: Option<Seq<char>>) -> Seq<char> {
    let image = match title {
        Some(t) => "!["@ + escape_alt(alt) + "]("@ + escape_url(src) + " \""@ + escape_title(t)
            + "\")"@,
        None => "!["@ + escape_alt(alt) + "]("@ + escape_url(src) + ")"@,
    };
    match caption {
        Some(c) => image + "\n\n_"@ + c + "_"@,
        None => image,
    }
}

fn replace_twice(v: &[char], a: char, ra: &str, b: char, rb: &str) -> (r: Vec<char>)
    ensures
        r@ == replace_char(replace_char(v@, a, ra@), b, rb@),
{
    let x = chars_of(ra);
    let y = chars_of(rb);
    let first = crate::text::replace_char_chars(v, a, &x);
    crate::text::replace_char_chars(&first, b, &y)
}

/// The Markdown of an image with optional title and caption.
pub fn render_image_markdown(src: &str, alt: &str, title: Option<&str>, caption: Option<&str>) -> (r: String)
    ensures
        r@ == image_markdown(
            src@,
            alt@,
            match title {
                Some(t) => Some(t@),
                None => None,
            },
            match caption {
                Some(c) => Some(c@),
                None => None,
            },
        ),
{
    let s = chars_of(src);
    let a = chars_of(alt);
    let mut out = chars_of("![");
    let ea = replace_twice(&a, '\\', "\\\\", ']', "\\]");
    push_all(&mut out, &ea);
    push_str(&mut out, "](");
    let eu = replace_twice(&s, ' ', "%20", ')', "%29");
    push_all(&mut out, &eu);
    match title {
        Some(t) => {
            let tc = chars_of(t);
            push_str(&mut out, " \"");
            let et = replace_twice(&tc, '\\', "\\\\", '"', "\\\"");
            push_all(&mut out, &et);
            push_str(&mut out, "\")");
        },
        None => push_str(&mut out, ")"),
    }
    if let Some(c) = caption {
        push_str(&mut out, "\n\n_");
        push_str(&mut out, c);
        push_str(&mut out, "_");
    }
    string_of(&out)
}

/// What a block renders to, apart from where it stands.
pub struct BlockContent {
    pub kind: Seq<char>,
    pub markdown: Seq<char>,
    pub latex: Option<Seq<char>>,
    pub diagnostics: Seq<DiagnosticView>,
}

/// A block's rendering: prose as it is; a statement lowered, rendered with the block's
/// options and set as a display equation; a figure as an image whose source is resolved
/// against the source file's `path` and the working directory `cwd`.
#[verifier::opaque]
pub open spec fn block_content(b: BlockView, m: MetadataView, base: RenderOptions, path: Option<Seq<char>>, cwd: Option<Seq<char>>) -> BlockContent {
    match b.kind {
        BlockKindView::Markdown { content } => BlockContent {
            kind: "markdown"@,
            markdown: content,
            latex: None,
            diagnostics: seq![],
        },
        BlockKindView::Math { statement } => {
            let (st, ld) = lower_view(statement, b.range);
            let (latex, rd) = render_statement_spec(st, m, block_options(base, b.config), b.range);
            BlockContent {
                kind: "math"@,
                markdown: "$$\n"@ + latex + "\n$$"@,
                latex: Some(latex),
                diagnostics: ld + rd,
            }
        },
        BlockKindView::Image { src, alt, title, caption } => BlockContent {
            kind: "image"@,
            markdown: image_markdown(resolve_figure_spec(src, path, cwd), alt, title, caption),
            latex: None,
            diagnostics: seq![],
        },
    }
}

/// `out` holds the positions of the ends of `r` in `s`.
pub open spec fn range_of(s: Seq<char>, r: TextRange, out: Range) -> bool {
    position_at_spec(s, r.start as int, out.start) && position_at_spec(s, r.end as int, out.end)
}

/// A rendered block that carries `c` and stands at `r` of `s`.
pub open spec fn block_is(rb: RenderedBlock, c: BlockContent, s: Seq<char>, r: TextRange) -> bool {
    &&& rb.kind@ == c.kind
    &&& rb.markdown@ == c.markdown
    &&& opt_view(rb.latex) == c.latex
    &&& diags_view(rb.diagnostics@) == c.diagnostics
    &&& range_of(s, r, rb.range)
}

/// The blocks that overlap `only`, or all blocks where there is no `only`.
pub open spec fn selected(b: Seq<BlockView>, only: Option<TextRange>) -> Seq<BlockView>
    decreases b.len(),
{
    if b.len() == 0 {
        seq![]
    } else {
        let rest = selected(b.drop_last(), only);
        let keep = match only {
            Some(r) => b.last().range.start < r.end && r.start < b.last().range.end,
            None => true,
        };
        if keep {
            rest.push(b.last())
        } else {
            rest
        }
    }
}

pub open spec fn contents(sel: Seq<BlockView>, m: MetadataView, base: RenderOptions, path: Option<Seq<char>>, cwd: Option<Seq<char>>) -> Seq<BlockContent> {
    sel.map_values(|b: BlockView| block_content(b, m, base, path, cwd))
}

/// The diagnostics of the blocks, in order.
pub open spec fn content_diags(cs: Seq<BlockContent>) -> Seq<DiagnosticView>
    decreases cs.len(),
{
    if cs.len() == 0 {
        seq![]
    } else {
        content_diags(cs.drop_last()) + cs.last().diagnostics
    }
}

pub open spec fn empty_diag() -> DiagnosticView {
    DiagnosticView {
        code: "mathrender::empty"@,
        message: "no renderable blocks found"@,
        range: TextRange { start: 0, end: 0 },
        severity: DiagnosticSeverity::Information,
    }
}

/// The document's diagnostics: the given ones, then each block's; a note where there is
/// neither a block nor a diagnostic.
pub open spec fn document_diags(input: Seq<DiagnosticView>, cs: Seq<BlockContent>) -> Seq<DiagnosticView> {
    let d = input + content_diags(cs);
    if cs.len() == 0 && d.len() == 0 {
        seq![empty_diag()]
    } else {
        d
    }
}

pub open spec fn opt_text(o: Option<&str>) -> Option<Seq<char>> {
    match o {
        Some(t) => Some(t@),
        None => None,
    }
}

fn opt_str(o: &Option<String>) -> (r: Option<&str>)
    ensures
        opt_text(r) == opt_view(*o),
{
    match o {
        Some(s) => Some(s.as_str()),
        None => None,
    }
}

/// Renders one block of `source`.
pub fn render_block(source: &SourceFile, block: &RenderableBlock, metadata: &MetadataIndex, base: &RenderOptions, path: Option<&str>, cwd: Option<&str>) -> (r: RenderedBlock)
    requires
        source.wf(),
    ensures
        block_is(
            r,
            block_content(block@, metadata@, *base, opt_text(path), opt_text(cwd)),
            source.source@,
            block.range,
        ),
{
    let range = source.range(block.range);
    proof {
        reveal(block_content);
    }
    match &block.kind {
        BlockKind::Markdown { content } => {
            let r = RenderedBlock {
                kind: "markdown".to_owned(),
                range,
                markdown: content.clone(),
                latex: None,
                diagnostics: Vec::new(),
            };
            assert(diags_view(r.diagnostics@) =~= Seq::<DiagnosticView>::empty());
            r
        },
        BlockKind::Math { statement } => {
            let lowered = lower_statement(statement.as_str(), block.range);
            let options = apply_block_config(base, block.config);
            let LoweredStatement { statement: st, diagnostics: ld } = lowered;
            let latex = render_statement(&st, metadata, &options, block.range);
            let mut diagnostics = ld;
            let mut more = latex.diagnostics;
            let ghost a = diags_view(diagnostics@);
            let ghost b = diags_view(more@);
            diagnostics.append(&mut more);
            assert(diags_view(diagnostics@) =~= a + b);
            let lc = chars_of(latex.latex.as_str());
            let mut md = chars_of("$$\n");
            push_all(&mut md, &lc);
            push_str(&mut md, "\n$$");
            RenderedBlock {
                kind: "math".to_owned(),
                range,
                markdown: string_of(&md),
                latex: Some(latex.latex),
                diagnostics,
            }
        },
        BlockKind::Image { src, alt, title, caption } => {
            let resolved = resolve_figure_src(src.as_str(), path, cwd);
            let markdown = render_image_markdown(
                resolved.as_str(),
                alt.as_str(),
                opt_str(title),
                opt_str(caption),
            );
            let r = RenderedBlock {
                kind: "image".to_owned(),
                range,
                markdown,
                latex: None,
                diagnostics: Vec::new(),
            };
            assert(diags_view(r.diagnostics@) =~= Seq::<DiagnosticView>::empty());
            r
        },
    }
}

/// Renders the blocks of a parsed source (those overlapping `only_range`, where given) into
/// one Markdown document; `diagnostics` are the parser's and come first.
pub fn render_parsed(source: &SourceFile, blocks: &Vec<RenderableBlock>, diagnostics: Vec<Diagnostic>, metadata: &MetadataIndex, base: &RenderOptions, path: Option<&str>, cwd: Option<&str>, only_range: Option<TextRange>) -> (doc: RenderedDocument)
    requires
        source.wf(),
    ensures
        ({
            let sel = selected(crate::ast::blocks_view(blocks@), only_range);
            let cs = contents(sel, metadata@, *base, opt_text(path), opt_text(cwd));
            &&& doc.kind@ == "markdown"@
            &&& range_of(
                source.source@,
                TextRange { start: 0, end: crate::text::utf8_len(source.source@) as usize },
                doc.range,
            )
            &&& doc.blocks@.len() == sel.len()
            &&& forall|k: int|
                0 <= k < sel.len() ==> #[trigger] block_is(
                    doc.blocks@[k],
                    cs[k],
                    source.source@,
                    sel[k].range,
                )
            &&& doc.markdown@ == join(cs.map_values(|c: BlockContent| c.markdown), "\n\n"@)
            &&& diags_view(doc.diagnostics@) == document_diags(diags_view(diagnostics@), cs)
        }),
{
    let ghost bv = crate::ast::blocks_view(blocks@);
    let ghost m = metadata@;
    let ghost pt = opt_text(path);
    let ghost ct = opt_text(cwd);
    let ghost input = diags_view(diagnostics@);
    let mut out: Vec<RenderedBlock> = Vec::new();
    let mut parts: Vec<Vec<char>> = Vec::new();
    let mut diags = diagnostics;
    let ghost mut sel: Seq<BlockView> = seq![];
    let ghost mut cs: Seq<BlockContent> = seq![];
    assert(bv.take(0) =~= Seq::<BlockView>::empty());
    assert(input + content_diags(cs) =~= input);
    assert(pieces_view(parts@) =~= cs.map_values(|c: BlockContent| c.markdown));
    for k in 0..blocks.len()
        invariant
            bv == crate::ast::blocks_view(blocks@),
            m == metadata@,
            pt == opt_text(path),
            ct == opt_text(cwd),
            source.wf(),
            sel == selected(bv.take(k as int), only_range),
            cs == contents(sel, m, *base, pt, ct),
            out@.len() == sel.len(),
            forall|j: int|
                0 <= j < out@.len() ==> #[trigger] block_is(
                    out@[j],
                    cs[j],
                    source.source@,
                    sel[j].range,
                ),
            pieces_view(parts@) == cs.map_values(|c: BlockContent| c.markdown),
            diags_view(diags@) == input + content_diags(cs),
    {
        assert(bv.take(k + 1).drop_last() =~= bv.take(k as int));
        assert(bv.take(k + 1).last() == blocks@[k as int]@);
        let block = &blocks[k];
        let keep = match only_range {
            Some(r) => block.range.overlaps(r),
            None => true,
        };
        if keep {
            let rb = render_block(source, block, metadata, base, path, cwd);
            let ghost c = block_content(blocks@[k as int]@, m, *base, pt, ct);
            let ghost before_d = diags_view(diags@);
            crate::ast::extend_diagnostics(&mut diags, &rb.diagnostics);
            let ghost before_p = pieces_view(parts@);
            parts.push(chars_of(rb.markdown.as_str()));
            proof {
                assert(cs.push(c).drop_last() =~= cs);
                assert(content_diags(cs.push(c)) == content_diags(cs) + c.diagnostics);
                assert(pieces_view(parts@) =~= before_p.push(c.markdown));
                assert(cs.push(c).map_values(|x: BlockContent| x.markdown) =~= cs.map_values(
                    |x: BlockContent| x.markdown,
                ).push(c.markdown));
                assert(contents(sel.push(blocks@[k as int]@), m, *base, pt, ct) =~= cs.push(c));
            }
            out.push(rb);
            proof {
                let ghost old_sel = sel;
                sel = sel.push(blocks@[k as int]@);
                cs = cs.push(c);
                assert forall|j: int| 0 <= j < out@.len() implies #[trigger] block_is(
                    out@[j],
                    cs[j],
                    source.source@,
                    sel[j].range,
                ) by {
                    if j < out@.len() - 1 {
                        assert(sel[j] == old_sel[j]);
                    }
                }
            }
        }
    }
    assert(bv.take(blocks@.len() as int) =~= bv);
    if out.len() == 0 && diags.len() == 0 {
        let mut message: Vec<char> = Vec::new();
        push_str(&mut message, "no renderable blocks found");
        let d = Diagnostic::make(
            "mathrender::empty",
            message,
            TextRange { start: 0, end: 0 },
            DiagnosticSeverity::Information,
        );
        diags.push(d);
        assert(diags_view(diags@) =~= seq![empty_diag()]);
    }
    let sep = chars_of("\n\n");
    let md = crate::text::join_chars(&parts, &sep);
    assert(parts@.map_values(|p: Vec<char>| p@) =~= pieces_view(parts@));
    let end = source.byte_len();
    let range = source.range(TextRange { start: 0, end });
    RenderedDocument {
        kind: "markdown".to_owned(),
        range,
        markdown: string_of(&md),
        blocks: out,
        diagnostics: diags,
    }
}

} // verus!
