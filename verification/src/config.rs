//! Configuration read from TOML documents: the automatic-naming options of a project file,
//! the symbols and function templates of a sidecar file, and the order in which the metadata
//! sources of a Python file are merged.
use vstd::prelude::*;
use crate::ast::TextRange;
use crate::latex::RenderOptions;
use crate::metadata::{
    builtin_templates, inline_view, templates_map, FunctionMetaView, FunctionRenderKind,
    FunctionRenderMeta, MetadataIndex, MetadataView, SymbolMeta, SymbolMetaView,
};
use crate::text::{chars_of, seq_eq};

verus! {

/// A TOML value: strings, integers, booleans, arrays and tables (their entries in key
/// order); floats and datetimes, which the configuration never reads, are `Other`.
#[derive(Debug)]
pub enum TomlValue {
    String(String),
    Integer(i64),
    Boolean(bool),
    Array(Vec<TomlValue>),
    Table(Vec<(String, TomlValue)>),
    Other,
}

#[verifier::external_type_specification]
#[verifier::external_body]
pub struct ExTomlValue(toml::Value);

/// The value of the TOML document `text` as the `toml` crate parses it, or `None` where the
/// text is not a TOML document.
pub uninterp spec fn toml_document(text: Seq<char>) -> Option<TomlValue>;

/// A parsed `toml::Value` in the library's form: each variant to its own, floats and
/// datetimes to `Other`. Nothing is promised of the result here; `parse_toml` names it.
#[verifier::external_body]
fn toml_to_value(value: &toml::Value) -> TomlValue {
    match value {
        toml::Value::String(s) => TomlValue::String(s.clone()),
        toml::Value::Integer(i) => TomlValue::Integer(*i),
        toml::Value::Float(_) => TomlValue::Other,
        toml::Value::Boolean(b) => TomlValue::Boolean(*b),
        toml::Value::Datetime(_) => TomlValue::Other,
        toml::Value::Array(items) => TomlValue::Array(items.iter().map(toml_to_value).collect()),
        toml::Value::Table(t) => TomlValue::Table(
            t.iter().map(|(k, v)| (k.clone(), toml_to_value(v))).collect(),
        ),
    }
}

/// `toml::from_str::<toml::Value>` on `text`: its value in the library's form, `None` where
/// the parser returns an error. The result is named by [`toml_document`]; what the parser
/// accepts is not restated here.
#[verifier::external_body]
fn parse_toml(text: &str) -> (r: Option<TomlValue>)
    ensures
        r == toml_document(text@),
{
    match toml::from_str::<toml::Value>(text) {
        Ok(value) => Some(toml_to_value(&value)),
        Err(_) => None,
    }
}

/// The value under `key` in a table's entries (keys of a TOML table are unique).
pub open spec fn entry(e: Seq<(String, TomlValue)>, key: Seq<char>) -> Option<TomlValue>
    decreases e.len(),
{
    if e.len() == 0 {
        None
    } else if e[0].0@ == key {
        Some(e[0].1)
    } else {
        entry(e.skip(1), key)
    }
}

/// The value under `key` where `v` is a table.
pub open spec fn get(v: TomlValue, key: Seq<char>) -> Option<TomlValue> {
    match v {
        TomlValue::Table(e) => entry(e@, key),
        _ => None,
    }
}

/// The boolean under `key` in a table's entries.
pub open spec fn entry_bool(e: Seq<(String, TomlValue)>, key: Seq<char>) -> Option<bool> {
    match entry(e, key) {
        Some(TomlValue::Boolean(b)) => Some(b),
        _ => None,
    }
}

/// The string under `key` in a table's entries.
pub open spec fn entry_str(e: Seq<(String, TomlValue)>, key: Seq<char>) -> Option<Seq<char>> {
    match entry(e, key) {
        Some(TomlValue::String(s)) => Some(s@),
        _ => None,
    }
}

fn entry_exec<'a>(e: &'a Vec<(String, TomlValue)>, key: &str) -> (r: Option<&'a TomlValue>)
    ensures
        match r {
            Some(x) => entry(e@, key@) == Some(*x),
            None => entry(e@, key@) is None,
        },
{
    let k = chars_of(key);
    let mut i: usize = 0;
    assert(e@.skip(0) =~= e@);
    while i < e.len()
        invariant
            i <= e@.len(),
            k@ == key@,
            entry(e@, key@) == entry(e@.skip(i as int), key@),
        decreases e@.len() - i,
    {
        assert(e@.skip(i as int)[0] == e@[i as int]);
        assert(e@.skip(i as int).skip(1) =~= e@.skip(i + 1));
        let name = chars_of(e[i].0.as_str());
        if seq_eq(&name, &k) {
            return Some(&e[i].1);
        }
        i = i + 1;
    }
    None
}

fn get_exec<'a>(v: &'a TomlValue, key: &str) -> (r: Option<&'a TomlValue>)
    ensures
        match r {
            Some(x) => get(*v, key@) == Some(*x),
            None => get(*v, key@) is None,
        },
{
    match v {
        TomlValue::Table(e) => entry_exec(e, key),
        _ => None,
    }
}

fn entry_bool_exec(e: &Vec<(String, TomlValue)>, key: &str) -> (r: Option<bool>)
    ensures
        r == entry_bool(e@, key@),
{
    match entry_exec(e, key) {
        Some(TomlValue::Boolean(b)) => Some(*b),
        _ => None,
    }
}

fn entry_str_exec(e: &Vec<(String, TomlValue)>, key: &str) -> (r: Option<String>)
    ensures
        crate::ast::opt_view(r) == entry_str(e@, key@),
{
    match entry_exec(e, key) {
        Some(TomlValue::String(s)) => Some(s.clone()),
        _ => None,
    }
}

/// Both naming switches set to `b`.
pub open spec fn both(b: bool) -> RenderOptions {
    RenderOptions { underscore_subscripts: b, auto_name_symbol: b }
}

pub open spec fn with_subscripts(o: RenderOptions, b: Option<bool>) -> RenderOptions {
    match b {
        Some(x) => RenderOptions { underscore_subscripts: x, ..o },
        None => o,
    }
}

pub open spec fn with_symbols(o: RenderOptions, b: Option<bool>) -> RenderOptions {
    match b {
        Some(x) => RenderOptions { auto_name_symbol: x, ..o },
        None => o,
    }
}

/// The options after the `auto_name` key: a boolean sets both switches; a table sets
/// `subscript` and `symbol`.
pub open spec fn after_auto_name(o: RenderOptions, v: TomlValue) -> RenderOptions {
    match get(v, "auto_name"@) {
        Some(TomlValue::Boolean(b)) => both(b),
        Some(TomlValue::Table(t)) => with_symbols(
            with_subscripts(o, entry_bool(t@, "subscript"@)),
            entry_bool(t@, "symbol"@),
        ),
        _ => o,
    }
}

/// The options after a `[render]` table: `auto_name` sets both switches, then
/// `auto_name_subscript` and `auto_name_symbol` set one each.
pub open spec fn after_render(o: RenderOptions, v: TomlValue) -> RenderOptions {
    match get(v, "render"@) {
        Some(TomlValue::Table(t)) => {
            let a = match entry_bool(t@, "auto_name"@) {
                Some(b) => both(b),
                None => o,
            };
            with_symbols(
                with_subscripts(a, entry_bool(t@, "auto_name_subscript"@)),
                entry_bool(t@, "auto_name_symbol"@),
            )
        },
        _ => o,
    }
}

/// The options that a project configuration document gives, starting from `o`.
pub open spec fn options_from_config(o: RenderOptions, v: TomlValue) -> RenderOptions {
    after_render(after_auto_name(o, v), v)
}

/// Applies the naming options of a project configuration document: `auto_name` (a boolean,
/// or a table with `subscript` and `symbol`), then the `[render]` table.
pub fn apply_render_options_table(options: &mut RenderOptions, value: &TomlValue)
    ensures
        *final(options) == options_from_config(*old(options), *value),
{
    match get_exec(value, "auto_name") {
        Some(TomlValue::Boolean(b)) => {
            options.underscore_subscripts = *b;
            options.auto_name_symbol = *b;
        },
        Some(TomlValue::Table(t)) => {
            if let Some(b) = entry_bool_exec(t, "subscript") {
                options.underscore_subscripts = b;
            }
            if let Some(b) = entry_bool_exec(t, "symbol") {
                options.auto_name_symbol = b;
            }
        },
        _ => {},
    }
    if let Some(TomlValue::Table(t)) = get_exec(value, "render") {
        if let Some(b) = entry_bool_exec(t, "auto_name") {
            options.underscore_subscripts = b;
            options.auto_name_symbol = b;
        }
        if let Some(b) = entry_bool_exec(t, "auto_name_subscript") {
            options.underscore_subscripts = b;
        }
        if let Some(b) = entry_bool_exec(t, "auto_name_symbol") {
            options.auto_name_symbol = b;
        }
    }
}

/// A symbol of a sidecar's `[symbols]` table.
pub open spec fn sidecar_symbol(name: Seq<char>, latex: Seq<char>) -> SymbolMetaView {
    SymbolMetaView {
        name,
        latex,
        text: None,
        tensor: None,
        source_range: TextRange { start: 0, end: 0 },
    }
}

/// A function of a sidecar's `[functions]` table.
pub open spec fn sidecar_function(name: Seq<char>, latex: Option<Seq<char>>, text: Option<Seq<char>>) -> FunctionMetaView {
    FunctionMetaView {
        qualified_name: name,
        latex_template: latex,
        text_template: text,
        precedence: None,
        kind: FunctionRenderKind::Template,
    }
}

/// The symbols of a `[symbols]` table: each string value is a symbol's LaTeX.
pub open spec fn sidecar_symbols(e: Seq<(String, TomlValue)>) -> Map<Seq<char>, SymbolMetaView>
    decreases e.len(),
{
    if e.len() == 0 {
        Map::empty()
    } else {
        let m = sidecar_symbols(e.drop_last());
        match e.last().1 {
            TomlValue::String(s) => m.insert(e.last().0@, sidecar_symbol(e.last().0@, s@)),
            _ => m,
        }
    }
}

/// The functions of a `[functions]` table: each table with `latex` or `text` is a template.
pub open spec fn sidecar_functions(e: Seq<(String, TomlValue)>) -> Map<Seq<char>, FunctionMetaView>
    decreases e.len(),
{
    if e.len() == 0 {
        Map::empty()
    } else {
        let m = sidecar_functions(e.drop_last());
        match e.last().1 {
            TomlValue::Table(t) => {
                let latex = entry_str(t@, "latex"@);
                let text = entry_str(t@, "text"@);
                if latex is Some || text is Some {
                    m.insert(e.last().0@, sidecar_function(e.last().0@, latex, text))
                } else {
                    m
                }
            },
            _ => m,
        }
    }
}

/// The metadata of a sidecar document.
pub open spec fn sidecar_view(v: TomlValue) -> MetadataView {
    MetadataView {
        symbols: match get(v, "symbols"@) {
            Some(TomlValue::Table(e)) => sidecar_symbols(e@),
            _ => Map::empty(),
        },
        functions: match get(v, "functions"@) {
            Some(TomlValue::Table(e)) => sidecar_functions(e@),
            _ => Map::empty(),
        },
    }
}

/// The symbols and function templates of a sidecar document: `[symbols]` maps names to
/// LaTeX, `[functions]` maps names to tables with `latex` and `text` templates.
pub fn sidecar_metadata(value: &TomlValue) -> (index: MetadataIndex)
    ensures
        index@ == sidecar_view(*value),
{
    let mut index = MetadataIndex::new();
    if let Some(TomlValue::Table(e)) = get_exec(value, "symbols") {
        for i in 0..e.len()
            invariant
                index@.symbols == sidecar_symbols(e@.take(i as int)),
                index@.functions == Map::<Seq<char>, FunctionMetaView>::empty(),
        {
            assert(e@.take(i + 1).drop_last() =~= e@.take(i as int));
            assert(e@.take(i + 1).last() == e@[i as int]);
            if let TomlValue::String(latex) = &e[i].1 {
                index.insert_symbol(
                    SymbolMeta {
                        name: e[i].0.clone(),
                        latex: latex.clone(),
                        text: None,
                        tensor: None,
                        source_range: TextRange { start: 0, end: 0 },
                    },
                );
            }
        }
        assert(e@.take(e@.len() as int) =~= e@);
    }
    let ghost syms = index@.symbols;
    if let Some(TomlValue::Table(e)) = get_exec(value, "functions") {
        assert(index@.functions =~= sidecar_functions(e@.take(0)));
        for i in 0..e.len()
            invariant
                index@.functions == sidecar_functions(e@.take(i as int)),
                index@.symbols == syms,
        {
            assert(e@.take(i + 1).drop_last() =~= e@.take(i as int));
            assert(e@.take(i + 1).last() == e@[i as int]);
            if let TomlValue::Table(t) = &e[i].1 {
                let latex = entry_str_exec(t, "latex");
                let text = entry_str_exec(t, "text");
                if latex.is_some() || text.is_some() {
                    index.insert_function(
                        FunctionRenderMeta {
                            qualified_name: e[i].0.clone(),
                            latex_template: latex,
                            text_template: text,
                            precedence: None,
                            kind: FunctionRenderKind::Template,
                        },
                    );
                }
            }
        }
        assert(e@.take(e@.len() as int) =~= e@);
    }
    index
}

/// The options that the project configuration text `text` gives, starting from `o`; a text
/// that is not TOML changes nothing.
pub open spec fn options_from_config_text(o: RenderOptions, text: Seq<char>) -> RenderOptions {
    match toml_document(text) {
        Some(v) => options_from_config(o, v),
        None => o,
    }
}

/// Applies the naming options of the project configuration text `text`.
pub fn apply_render_options_text(options: &mut RenderOptions, text: &str)
    ensures
        *final(options) == options_from_config_text(*old(options), text@),
{
    if let Some(value) = parse_toml(text) {
        apply_render_options_table(options, &value);
    }
}

/// The metadata of the sidecar text `text`; none where it is not TOML.
pub open spec fn sidecar_text_view(text: Seq<char>) -> MetadataView {
    match toml_document(text) {
        Some(v) => sidecar_view(v),
        None => MetadataView { symbols: Map::empty(), functions: Map::empty() },
    }
}

/// The symbols and function templates of a sidecar file's text.
pub fn extract_sidecar_metadata(source: &str) -> (index: MetadataIndex)
    ensures
        index@ == sidecar_text_view(source@),
{
    match parse_toml(source) {
        Some(value) => sidecar_metadata(&value),
        None => MetadataIndex::new(),
    }
}

/// `b`'s entries over `a`'s.
pub open spec fn merged(a: MetadataView, b: MetadataView) -> MetadataView {
    MetadataView {
        symbols: a.symbols.union_prefer_right(b.symbols),
        functions: a.functions.union_prefer_right(b.functions),
    }
}

/// The built-in function templates and no symbols.
pub open spec fn builtins_view() -> MetadataView {
    MetadataView { symbols: Map::empty(), functions: templates_map(builtin_templates()) }
}

/// The metadata of a Python file: the built-ins, then the sidecar's entries, then those of
/// the `.pyi` stub's annotations, then those of the file's own annotations, each over the
/// ones before.
pub open spec fn loaded_view(sidecar: Option<MetadataView>, stub: Option<Seq<char>>, source: Seq<char>) -> MetadataView {
    let a = builtins_view();
    let b = match sidecar {
        Some(s) => merged(a, s),
        None => a,
    };
    let c = match stub {
        Some(t) => merged(b, inline_view(t)),
        None => b,
    };
    merged(c, inline_view(source))
}

/// Merges the metadata of a Python file from its sources (each one read by the caller): the
/// built-ins, the sidecar document's metadata, the stub's text, and the file's text.
pub fn combine_metadata(sidecar: Option<MetadataIndex>, stub: Option<&str>, source: &str) -> (index: MetadataIndex)
    ensures
        index@ == loaded_view(
            match sidecar {
                Some(s) => Some(s@),
                None => None,
            },
            match stub {
                Some(t) => Some(t@),
                None => None,
            },
            source@,
        ),
{
    let mut merged_index = MetadataIndex::with_builtins();
    if let Some(s) = sidecar {
        merged_index.merge_overwrite(s);
    }
    if let Some(t) = stub {
        merged_index.merge_overwrite(crate::metadata::extract_inline_metadata(t));
    }
    merged_index.merge_overwrite(crate::metadata::extract_inline_metadata(source));
    merged_index
}

} // verus!
