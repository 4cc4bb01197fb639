use mathrender::ast::TextRange;
use mathrender::ir::lower_statement;
use mathrender::latex::{render_statement, RenderOptions};
use mathrender::metadata::{extract_inline_metadata, MetadataIndex};

fn render(source: &str, metadata: &MetadataIndex, options: &RenderOptions) -> String {
    let lowered = lower_statement(source, TextRange { start: 0, end: 0 });
    render_statement(&lowered.statement, metadata, options, TextRange { start: 0, end: 0 }).latex
}

#[test]
fn renders_templates_and_tensors() {
    let source = r#"
A: Annotated[np.ndarray, Tensor("A", ("i", "j"))]
x: Annotated[np.ndarray, Tensor("x", ("j",))]
y: Annotated[np.ndarray, Tensor("y", ("i",))]
@render_as(latex=r"\left\|{0}\right\|")
def norm(v): ...
"#;
    let metadata = extract_inline_metadata(source);
    let lowered = lower_statement("loss = norm(y - A @ x)", TextRange { start: 0, end: 0 });
    let rendered = render_statement(
        &lowered.statement,
        &metadata,
        &RenderOptions::default(),
        TextRange { start: 0, end: 0 },
    );
    assert!(rendered.latex.contains(r"\left\|"));
    assert!(rendered.latex.contains("A_{ij}x_{j}"));
}

#[test]
fn groups_tensor_names_before_appending_indices() {
    let source = r#"
X: Annotated[object, Tensor("X", ("t", "d"))]
W_Q: Annotated[object, Tensor("W_Q", ("d", "k"))]
Q: Annotated[object, Tensor("Q", ("t", "k"))]
"#;
    let metadata = extract_inline_metadata(source);
    let lowered = lower_statement("Q = X @ W_Q", TextRange { start: 0, end: 0 });
    let rendered = render_statement(
        &lowered.statement,
        &metadata,
        &RenderOptions::default(),
        TextRange { start: 0, end: 0 },
    );
    assert!(rendered.latex.contains(r"{W_Q}_{dk}"));
    assert!(!rendered.latex.contains(r"W_Q_{dk}"));
}

#[test]
fn renders_symbol_lookup_expansions() {
    let metadata = MetadataIndex::with_builtins();
    let lowered = lower_statement("ω = ::omega:: + 1", TextRange { start: 0, end: 0 });
    let rendered = render_statement(
        &lowered.statement,
        &metadata,
        &RenderOptions::default(),
        TextRange { start: 0, end: 0 },
    );
    assert!(lowered.diagnostics.is_empty());
    assert_eq!(rendered.latex, r"\omega = \omega + 1");
}

#[test]
fn can_disable_auto_name_subscripts() {
    let metadata = MetadataIndex::with_builtins();
    let lowered = lower_statement("final_loss = 1", TextRange { start: 0, end: 0 });
    let rendered = render_statement(
        &lowered.statement,
        &metadata,
        &RenderOptions {
            underscore_subscripts: false,
            ..RenderOptions::default()
        },
        TextRange { start: 0, end: 0 },
    );
    assert_eq!(rendered.latex, r"final\_loss = 1");
}

#[test]
fn can_disable_auto_name_symbols() {
    let metadata = MetadataIndex::with_builtins();
    let lowered = lower_statement("alpha = beta", TextRange { start: 0, end: 0 });
    let rendered = render_statement(
        &lowered.statement,
        &metadata,
        &RenderOptions {
            auto_name_symbol: false,
            ..RenderOptions::default()
        },
        TextRange { start: 0, end: 0 },
    );
    assert_eq!(
        rendered.latex,
        r"\operatorname{alpha} = \operatorname{beta}"
    );
}

#[test]
fn renders_fractions_powers_and_builtin_templates() {
    let metadata = MetadataIndex::with_builtins();
    let options = RenderOptions::default();
    assert_eq!(render("z = abs(theta - mu) / sqrt(sigma)", &metadata, &options),
        r"z = \frac{\left|\theta - \mu\right|}{\sqrt{\sigma}}");
    assert_eq!(render("y = (a + b) ** 2", &metadata, &options), r"y = \left(a + b\right)^{2}");
    assert_eq!(render("y = (a + b) * c", &metadata, &options), r"y = \left(a + b\right)c");
    assert_eq!(render("y = -x_prime", &metadata, &options), r"y = -x'");
    assert_eq!(render("loss_total_sum = 1", &metadata, &options), r"\operatorname{loss}_{totalsum} = 1");
}

#[test]
fn unknown_functions_render_as_operators() {
    let metadata = MetadataIndex::with_builtins();
    let options = RenderOptions::default();
    assert_eq!(render("f(x, y)", &metadata, &options), r"\operatorname{f}\left(x, y\right)");
    assert_eq!(render("np.tanh(x)", &metadata, &options), r"\operatorname{tanh}\left(x\right)");
    assert_eq!(render("math.sin(x)", &metadata, &options), r"\sin\left(x\right)");
}

#[test]
fn template_arity_is_checked() {
    let source = r#"
@render_as(latex=r"{0} \cdot {1}")
def dot(a): ...
"#;
    let metadata = extract_inline_metadata(source);
    let lowered = lower_statement("dot(x)", TextRange { start: 0, end: 0 });
    let rendered = render_statement(
        &lowered.statement,
        &metadata,
        &RenderOptions::default(),
        TextRange { start: 0, end: 0 },
    );
    assert_eq!(rendered.latex, r"x \cdot ");
    assert_eq!(rendered.diagnostics.len(), 1);
    assert_eq!(rendered.diagnostics[0].code, "mathdocs::template-arity");
    assert_eq!(
        rendered.diagnostics[0].message,
        "template references argument 1, but call has 1 argument(s)"
    );
}

#[test]
fn mismatched_contractions_are_reported() {
    let source = r#"
A: Annotated[object, Tensor("A", ("i", "j"))]
B: Annotated[object, Tensor("B", ("k", "l"))]
"#;
    let metadata = extract_inline_metadata(source);
    let lowered = lower_statement("C = A @ B", TextRange { start: 0, end: 0 });
    let rendered = render_statement(
        &lowered.statement,
        &metadata,
        &RenderOptions::default(),
        TextRange { start: 0, end: 0 },
    );
    assert_eq!(rendered.latex, "C_{ijkl} = A_{ij}B_{kl}");
    assert_eq!(rendered.diagnostics.len(), 1);
    assert_eq!(
        rendered.diagnostics[0].message,
        "cannot infer contraction for indices ending in j and starting with k"
    );
}

#[test]
fn named_equations_render_the_equation_alone() {
    let metadata = MetadataIndex::with_builtins();
    let options = RenderOptions::default();
    assert_eq!(render("eq_energy = E == m * c ** 2", &metadata, &options), "E = mc^{2}");
}

#[test]
fn subscripts_and_unsupported_pieces() {
    let metadata = MetadataIndex::with_builtins();
    let options = RenderOptions::default();
    assert_eq!(render("x[i, alpha]", &metadata, &options), r"x_{i\alpha}");
    let lowered = lower_statement("y = $", TextRange { start: 0, end: 0 });
    let rendered = render_statement(&lowered.statement, &metadata, &options, TextRange { start: 0, end: 0 });
    assert!(rendered.latex.starts_with("y = "));
}

#[test]
fn fractions_drop_the_parentheses_around_their_parts() {
    let metadata = MetadataIndex::new();
    let options = RenderOptions::default();
    assert_eq!(render("(a + b) / (c + d)", &metadata, &options), r"\frac{a + b}{c + d}");
    assert_eq!(render("y = (x - mu) / sigma", &metadata, &options), r"y = \frac{x - \mu}{\sigma}");
    assert_eq!(render("y = ((a)) / b", &metadata, &options), r"y = \frac{\left(a\right)}{b}");
}

#[test]
fn a_sum_reports_each_failed_contraction_once() {
    let source = r#"
A: Annotated[object, Tensor("A", ("i", "j"))]
x: Annotated[object, Tensor("x", ("k",))]
"#;
    let metadata = extract_inline_metadata(source);
    let lowered = lower_statement("y = A @ x + 1", TextRange { start: 0, end: 0 });
    let rendered = render_statement(
        &lowered.statement,
        &metadata,
        &RenderOptions::default(),
        TextRange { start: 0, end: 0 },
    );
    assert!(rendered.latex.contains("A_{ij}x_{k}"));
    let count = rendered
        .diagnostics
        .iter()
        .filter(|d| d.code == "mathdocs::tensor-index")
        .count();
    assert_eq!(count, 1);
}
