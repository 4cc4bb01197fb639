use mathrender::ast::BlockKind;
use mathrender::scan::parse_source;

#[test]
fn scans_markdown_and_math_blocks() {
    let parsed = parse_source(
        "test.py",
        r#"
"""
# Title
"""
from typing import Annotated
x: Annotated[float, Symbol("x")]
y = x + 1
# mathdocs: ignore
z = x + 2
"#,
    );
    assert_eq!(parsed.blocks.len(), 2);
    assert!(matches!(parsed.blocks[0].kind, BlockKind::Markdown { .. }));
    assert!(matches!(parsed.blocks[1].kind, BlockKind::Math { .. }));
}

#[test]
fn scans_image_directives() {
    let parsed = parse_source(
        "test.py",
        r#"
from mathdocs import render_figure

"""
# Results
"""
render_figure("plots/loss.png", alt="Loss curve", caption="Training loss")
y = x + 1
"#,
    );
    assert_eq!(parsed.blocks.len(), 3);
    assert!(matches!(parsed.blocks[0].kind, BlockKind::Markdown { .. }));
    assert!(matches!(
        parsed.blocks[1].kind,
        BlockKind::Image {
            ref src,
            ref alt,
            ref caption,
            ..
        } if src == "plots/loss.png"
            && alt == "Loss curve"
            && caption.as_deref() == Some("Training loss")
    ));
    assert!(matches!(parsed.blocks[2].kind, BlockKind::Math { .. }));
}

#[test]
fn scans_figure_directives_with_src_keyword() {
    let parsed = parse_source(
        "test.py",
        r#"
render_figure(
    src="plots/accuracy.png",
    title="Accuracy",
)
"#,
    );
    assert_eq!(parsed.blocks.len(), 1);
    assert!(matches!(
        parsed.blocks[0].kind,
        BlockKind::Image {
            ref src,
            ref title,
            ..
        } if src == "plots/accuracy.png" && title.as_deref() == Some("Accuracy")
    ));
}

#[test]
fn scans_legacy_image_and_plot_directives() {
    let parsed = parse_source(
        "test.py",
        r#"
render_image("figures/confusion-matrix.png")
render_plot("figures/loss.png")
"#,
    );
    assert_eq!(parsed.blocks.len(), 2);
    assert!(matches!(parsed.blocks[0].kind, BlockKind::Image { .. }));
    assert!(matches!(parsed.blocks[1].kind, BlockKind::Image { .. }));
}

#[test]
fn accepts_symbol_lookup_syntax_for_mathdocs_blocks() {
    let parsed = parse_source("test.py", "x = ::omega:: + 1\n");
    assert!(parsed.diagnostics.is_empty());
    assert_eq!(parsed.blocks.len(), 1);
}

#[test]
fn applies_mathdocs_config_commands_to_blocks() {
    let parsed = parse_source(
        "test.py",
        r#"
# mathdocs: disable=auto_name/subscript, auto_name/symbol
final_loss = 1
alpha = 2 # mathdocs: disable=auto_name/symbol
beta = 3
"#,
    );
    assert_eq!(parsed.blocks.len(), 3);
    assert_eq!(parsed.blocks[0].config.auto_name_subscript, Some(false));
    assert_eq!(parsed.blocks[0].config.auto_name_symbol, Some(false));
    assert_eq!(parsed.blocks[1].config.auto_name_subscript, Some(false));
    assert_eq!(parsed.blocks[1].config.auto_name_symbol, Some(false));
    assert_eq!(parsed.blocks[2].config.auto_name_subscript, Some(false));
    assert_eq!(parsed.blocks[2].config.auto_name_symbol, Some(false));
}

#[test]
fn syntax_errors_become_error_diagnostics() {
    let parsed = parse_source("broken.py", "x = (1 +\n");
    assert_eq!(parsed.diagnostics.len(), 1);
    assert_eq!(parsed.diagnostics[0].code, "mathdocs::syntax");
}
