use mathrender::config::{
    apply_render_options_table, apply_render_options_text, combine_metadata,
    extract_sidecar_metadata, sidecar_metadata, TomlValue,
};
use mathrender::latex::RenderOptions;
use mathrender::metadata::extract_inline_metadata;

fn table(entries: Vec<(&str, TomlValue)>) -> TomlValue {
    TomlValue::Table(entries.into_iter().map(|(k, v)| (k.to_string(), v)).collect())
}

#[test]
fn parses_auto_name_render_options() {
    let mut options = RenderOptions::default();
    apply_render_options_text(&mut options, "[auto_name]\nsubscript = false\nsymbol = false\n");
    assert!(!options.underscore_subscripts);
    assert!(!options.auto_name_symbol);
}

#[test]
fn config_text_that_is_not_toml_changes_nothing() {
    let mut options = RenderOptions::default();
    apply_render_options_text(&mut options, "auto_name = [unclosed");
    assert!(options.underscore_subscripts && options.auto_name_symbol);
    apply_render_options_text(&mut options, "auto_name = false\n");
    assert!(!options.underscore_subscripts && !options.auto_name_symbol);
}

#[test]
fn reads_sidecar_text() {
    let index = extract_sidecar_metadata(
        "[symbols]\ntheta = '\\theta'\n[functions.norm]\nlatex = '|{0}|'\n",
    );
    assert_eq!(index.symbol("theta").unwrap().latex, r"\theta");
    assert_eq!(index.function("norm").unwrap().latex_template.as_deref(), Some("|{0}|"));
    assert!(extract_sidecar_metadata("not = [toml").symbol("theta").is_none());
}

#[test]
fn auto_name_table_sets_each_switch() {
    let value = table(vec![(
        "auto_name",
        table(vec![
            ("subscript", TomlValue::Boolean(false)),
            ("symbol", TomlValue::Boolean(false)),
        ]),
    )]);
    let mut options = RenderOptions::default();
    apply_render_options_table(&mut options, &value);
    assert!(!options.underscore_subscripts);
    assert!(!options.auto_name_symbol);
}

#[test]
fn render_table_overrides_auto_name() {
    let value = table(vec![
        ("auto_name", TomlValue::Boolean(false)),
        (
            "render",
            table(vec![("auto_name_symbol", TomlValue::Boolean(true))]),
        ),
    ]);
    let mut options = RenderOptions::default();
    apply_render_options_table(&mut options, &value);
    assert!(!options.underscore_subscripts);
    assert!(options.auto_name_symbol);
    let mut untouched = RenderOptions::default();
    apply_render_options_table(&mut untouched, &TomlValue::Other);
    assert!(untouched.underscore_subscripts && untouched.auto_name_symbol);
}

#[test]
fn reads_sidecar_symbols_and_functions() {
    let value = table(vec![
        (
            "symbols",
            table(vec![
                ("theta", TomlValue::String(r"\theta".to_string())),
                ("n", TomlValue::Boolean(true)),
            ]),
        ),
        (
            "functions",
            table(vec![
                ("norm", table(vec![("latex", TomlValue::String(r"\|{0}\|".to_string()))])),
                ("skip", table(vec![("other", TomlValue::Boolean(true))])),
            ]),
        ),
    ]);
    let index = sidecar_metadata(&value);
    assert_eq!(index.symbol("theta").unwrap().latex, r"\theta");
    assert!(index.symbol("n").is_none());
    assert_eq!(index.function("norm").unwrap().latex_template.as_deref(), Some(r"\|{0}\|"));
    assert!(index.function("skip").is_none());
}

#[test]
fn file_annotations_override_stub_sidecar_and_builtins() {
    let sidecar = sidecar_metadata(&table(vec![(
        "symbols",
        table(vec![
            ("x", TomlValue::String("X_side".to_string())),
            ("y", TomlValue::String("Y_side".to_string())),
        ]),
    )]));
    let stub = "y: Annotated[float, Symbol(\"Y_stub\")]\n";
    let source = "x: Annotated[float, Symbol(\"X_file\")]\n@render_as(latex=r\"|{0}|\")\ndef abs(v): ...\n";
    let index = combine_metadata(Some(sidecar), Some(stub), source);
    assert_eq!(index.symbol("x").unwrap().latex, "X_file");
    assert_eq!(index.symbol("y").unwrap().latex, "Y_stub");
    assert_eq!(index.function("abs").unwrap().latex_template.as_deref(), Some("|{0}|"));
    assert_eq!(index.function("sqrt").unwrap().latex_template.as_deref(), Some(r"\sqrt{{{0}}}"));
    let inline = extract_inline_metadata(source);
    assert!(inline.function("sqrt").is_none());
}
