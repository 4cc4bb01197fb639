use mathrender::ast::TextRange;
use mathrender::config::combine_metadata;
use mathrender::latex::RenderOptions;
use mathrender::markdown::{render_image_markdown, render_parsed, RenderedDocument};
use mathrender::paths::resolve_figure_src;
use mathrender::scan::parse_source;

fn render_with(
    display_path: &str,
    source: &str,
    path: Option<&str>,
    cwd: Option<&str>,
    only: Option<TextRange>,
) -> RenderedDocument {
    let parsed = parse_source(display_path, source);
    let metadata = combine_metadata(None, None, source);
    render_parsed(
        &parsed.source,
        &parsed.blocks,
        parsed.diagnostics.clone(),
        &metadata,
        &RenderOptions::default(),
        path,
        cwd,
        only,
    )
}

fn render_source(display_path: &str, source: &str) -> RenderedDocument {
    render_with(display_path, source, None, None, None)
}

#[test]
fn renders_linear_model_fixture() {
    let source = r#"
from typing import Annotated
from mathrender import Symbol, Tensor, render_as

"""
# Linear model

The prediction is a matrix-vector product plus a bias term.
"""

A: Annotated[np.ndarray, Tensor("A", ("i", "j"))]
x: Annotated[np.ndarray, Tensor("x", ("j",))]
b: Annotated[np.ndarray, Tensor("b", ("i",))]
y: Annotated[np.ndarray, Tensor("y", ("i",))]
sigma: Annotated[float, Symbol(r"\sigma")]

@render_as(latex=r"\left\|{0}\right\|")
def norm(v):
    return v

loss = norm(y - (A @ x + b)) / sigma
"#;
    let rendered = render_source("linear.py", source);
    assert!(rendered.markdown.contains("# Linear model"));
    assert!(rendered.markdown.contains(r"\left\|"));
    assert!(rendered.markdown.contains(r"\sigma"));
}

#[test]
fn renders_image_directive_in_document_order() {
    let source = r#"
from mathrender import render_figure

"""
# Results
"""
render_figure("plots/loss.png", alt="Loss curve", caption="Training loss")
y = x + 1
"#;
    let rendered = render_source("images.py", source);
    assert!(rendered
        .markdown
        .contains("# Results\n\n![Loss curve](plots/loss.png)\n\n_Training loss_\n\n$$"));
    assert_eq!(rendered.blocks[1].kind, "image");
    assert_eq!(rendered.blocks[1].latex, None);
}

#[test]
fn resolves_relative_figure_paths_from_source_file() {
    let source = r#"
from mathrender import render_figure

render_figure("plots/loss.png", alt="Loss curve")
"#;
    let path = "/work/project/docs/report.py";
    let rendered = render_with(path, source, Some(path), Some("/work/project"), None);
    assert!(rendered
        .markdown
        .contains("![Loss curve](docs/plots/loss.png)"));
}

#[test]
fn leaves_remote_and_absolute_figure_paths_unchanged() {
    assert_eq!(
        resolve_figure_src("https://example.com/figure.png", None, Some("/work")),
        "https://example.com/figure.png"
    );
    assert_eq!(
        resolve_figure_src("/var/tmp/figure.png", None, Some("/work")),
        "/var/tmp/figure.png"
    );
    assert_eq!(
        resolve_figure_src("/var/tmp/figure.png", Some("/work/a.py"), Some("/work")),
        "/var/tmp/figure.png"
    );
    assert_eq!(resolve_figure_src("plots/x.png", None, Some("/work")), "plots/x.png");
    assert_eq!(resolve_figure_src("data:image/png;base64,AA", Some("/w/a.py"), None), "data:image/png;base64,AA");
}

#[test]
fn relative_figure_paths_climb_out_of_the_working_directory() {
    assert_eq!(
        resolve_figure_src("../img/./a b.png", Some("/srv/site/docs/page.py"), Some("/srv/site/build")),
        "../img/a b.png"
    );
    assert_eq!(
        resolve_figure_src("plots/x.png", Some("report.py"), None),
        "plots/x.png"
    );
    assert_eq!(
        resolve_figure_src("plots/x.png", Some("docs/report.py"), Some("/home/u")),
        "docs/plots/x.png"
    );
}

#[test]
fn applies_comment_auto_name_config() {
    let source = r#"
# mathdocs: disable=auto_name/subscript
final_loss = 1
alpha = beta # mathdocs: disable=auto_name/symbol
"#;
    let rendered = render_source("test.py", source);
    assert!(rendered.markdown.contains(r"final\_loss = 1"));
    assert!(rendered
        .markdown
        .contains(r"\operatorname{alpha} = \operatorname{beta}"));
}

#[test]
fn renders_only_the_selected_range() {
    let source = "a = 1\nb = 2\n";
    let rendered = render_with("t.py", source, None, None, Some(TextRange { start: 6, end: 7 }));
    assert_eq!(rendered.blocks.len(), 1);
    assert_eq!(rendered.blocks[0].latex.as_deref(), Some("b = 2"));
    assert_eq!(rendered.markdown, "$$\nb = 2\n$$");
    assert_eq!(rendered.blocks[0].range.start.line, 1);
}

#[test]
fn empty_documents_get_a_note() {
    let rendered = render_source("empty.py", "");
    assert!(rendered.blocks.is_empty());
    assert_eq!(rendered.diagnostics.len(), 1);
    assert_eq!(rendered.diagnostics[0].code, "mathrender::empty");
    assert_eq!(rendered.markdown, "");
}

#[test]
fn image_markdown_escapes_its_parts() {
    assert_eq!(
        render_image_markdown("a b).png", "x]y", Some("say \"hi\""), Some("cap")),
        "![x\\]y](a%20b%29.png \"say \\\"hi\\\"\")\n\n_cap_"
    );
    assert_eq!(render_image_markdown("p.png", "", None, None), "![](p.png)");
}
