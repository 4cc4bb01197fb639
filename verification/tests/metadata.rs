use mathrender::metadata::{
    expand_symbol_lookups, extract_inline_metadata, resolve_symbol_lookup, symbol_lookup_entries,
    MetadataIndex,
};

#[test]
fn extracts_symbols_tensors_and_functions() {
    let source = r#"
theta: Annotated[float, Symbol(r"\theta")]
A: Annotated[np.ndarray, Tensor("A", ("i", "j"))]
@render_as(latex=r"\left\|{0}\right\|")
def norm(x): ...
"#;
    let meta = extract_inline_metadata(source);
    assert_eq!(meta.symbol("theta").unwrap().latex, r"\theta");
    assert_eq!(meta.symbol("A").unwrap().tensor.as_ref().unwrap().indices.len(), 2);
    assert_eq!(
        meta.function("norm").unwrap().latex_template.as_deref(),
        Some(r"\left\|{0}\right\|")
    );
}

#[test]
fn resolves_direct_and_namespaced_symbol_lookups() {
    assert_eq!(resolve_symbol_lookup("omega").unwrap().insert_text, "ω");
    assert_eq!(
        resolve_symbol_lookup("/greek/omega").unwrap().insert_text,
        "ω"
    );
    assert_eq!(expand_symbol_lookups("x = ::omega::"), "x = ω");
}

#[test]
fn unknown_lookups_are_kept() {
    assert!(resolve_symbol_lookup("nosuch").is_none());
    assert_eq!(expand_symbol_lookups("a ::nosuch:: b"), "a ::nosuch:: b");
    assert_eq!(expand_symbol_lookups("no lookups"), "no lookups");
}

#[test]
fn lookup_table_has_the_greek_letters() {
    let entries = symbol_lookup_entries();
    assert_eq!(entries.len(), 15);
    assert_eq!(entries[0].path, vec!["greek".to_string(), "alpha".to_string()]);
    assert_eq!(entries[14].insert_text, "ω");
}

#[test]
fn merge_prefers_the_later_index() {
    let mut base = MetadataIndex::with_builtins();
    let other = extract_inline_metadata("@render_as(latex=r\"|{0}|\")\ndef abs(x): ...\n");
    base.merge_overwrite(other);
    assert_eq!(base.function("abs").unwrap().latex_template.as_deref(), Some("|{0}|"));
    assert_eq!(
        base.function("sqrt").unwrap().latex_template.as_deref(),
        Some(r"\sqrt{{{0}}}")
    );
}

#[test]
fn every_symbol_resolves_by_alias_and_by_path() {
    for entry in symbol_lookup_entries() {
        let alias = &entry.aliases[0];
        let path = format!("/{}", entry.path.join("/"));
        let by_alias = resolve_symbol_lookup(alias).unwrap();
        let by_path = resolve_symbol_lookup(&path).unwrap();
        assert_eq!(by_alias, entry);
        assert_eq!(by_path, entry);
        assert_eq!(
            expand_symbol_lookups(&format!("a ::{alias}:: b ::{path}::")),
            format!("a {} b {}", entry.insert_text, entry.insert_text)
        );
    }
}

#[test]
fn only_known_constructors_declare_symbols() {
    let meta = extract_inline_metadata(r#"x: Annotated[float, FancySymbol("x")]"#);
    assert!(meta.symbol("x").is_none());
    let meta = extract_inline_metadata(r#"y: Annotated[float, md.Symbol(r"\upsilon")]"#);
    assert_eq!(meta.symbol("y").unwrap().latex, r"\upsilon");
}

#[test]
fn render_as_is_found_inside_longer_decorator_names() {
    let meta = extract_inline_metadata("@my_render_as(latex=\"x\")\ndef f(a): ...\n");
    assert_eq!(meta.function("f").unwrap().latex_template.as_deref(), Some("x"));
}
