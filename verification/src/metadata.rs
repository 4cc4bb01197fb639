//! Rendering metadata: symbols, tensors and function templates, gathered from inline
//! annotations, `render_as` decorators, stub files and sidecar tables, and the `::query::`
//! symbol lookups.
use vstd::prelude::*;
use crate::ast::TextRange;
use crate::text::{
    chars_of, find, find_chars, push_all, push_str, starts_with, starts_with_str,
    string_of, subvec, trim, trim_chars,
};

verus! {

#[derive(Debug, Clone, Copy, PartialEq, Eq, Structural)]
pub enum Variance {
    Covariant,
    Contravariant,
    Unspecified,
}

#[derive(Debug, Clone, PartialEq, Eq)]
pub struct IndexMeta {
    pub name: String,
    pub variance: Variance,
}

#[derive(Debug, Clone, PartialEq, Eq)]
pub struct TensorMeta {
    pub latex: String,
    pub indices: Vec<IndexMeta>,
}

#[derive(Debug, Clone, PartialEq, Eq)]
pub struct SymbolMeta {
    pub name: String,
    pub latex: String,
    pub text: Option<String>,
    pub tensor: Option<TensorMeta>,
    pub source_range: TextRange,
}

#[derive(Debug, Clone, Copy, PartialEq, Eq, Structural)]
pub enum FunctionRenderKind {
    Template,
    PrefixOperator,
    InfixOperator,
    SpecialForm,
}

#[derive(Debug, Clone, PartialEq, Eq)]
pub struct FunctionRenderMeta {
    pub qualified_name: String,
    pub latex_template: Option<String>,
    pub text_template: Option<String>,
    pub precedence: Option<u8>,
    pub kind: FunctionRenderKind,
}

pub struct IndexMetaView {
    pub name: Seq<char>,
    pub variance: Variance,
}

pub struct TensorMetaView {
    pub latex: Seq<char>,
    pub indices: Seq<IndexMetaView>,
}

pub struct SymbolMetaView {
    pub name: Seq<char>,
    pub latex: Seq<char>,
    pub text: Option<Seq<char>>,
    pub tensor: Option<TensorMetaView>,
    pub source_range: TextRange,
}

pub struct FunctionMetaView {
    pub qualified_name: Seq<char>,
    pub latex_template: Option<Seq<char>>,
    pub text_template: Option<Seq<char>>,
    pub precedence: Option<u8>,
    pub kind: FunctionRenderKind,
}

impl View for IndexMeta {
    type V = IndexMetaView;

    open spec fn view(&self) -> IndexMetaView {
        IndexMetaView { name: self.name@, variance: self.variance }
    }
}

impl View for TensorMeta {
    type V = TensorMetaView;

    open spec fn view(&self) -> TensorMetaView {
        TensorMetaView {
            latex: self.latex@,
            indices: self.indices@.map_values(|i: IndexMeta| i@),
        }
    }
}

impl View for SymbolMeta {
    type V = SymbolMetaView;

    open spec fn view(&self) -> SymbolMetaView {
        SymbolMetaView {
            name: self.name@,
            latex: self.latex@,
            text: crate::ast::opt_view(self.text),
            tensor: match self.tensor {
                Some(t) => Some(t@),
                None => None,
            },
            source_range: self.source_range,
        }
    }
}

impl View for FunctionRenderMeta {
    type V = FunctionMetaView;

    open spec fn view(&self) -> FunctionMetaView {
        FunctionMetaView {
            qualified_name: self.qualified_name@,
            latex_template: crate::ast::opt_view(self.latex_template),
            text_template: crate::ast::opt_view(self.text_template),
            precedence: self.precedence,
            kind: self.kind,
        }
    }
}

fn copy_opt_string(o: &Option<String>) -> (r: Option<String>)
    ensures
        crate::ast::opt_view(r) == crate::ast::opt_view(*o),
{
    match o {
        Some(s) => Some(s.clone()),
        None => None,
    }
}

impl IndexMeta {
    pub fn duplicate(&self) -> (r: IndexMeta)
        ensures
            r@ == self@,
    {
        IndexMeta { name: self.name.clone(), variance: self.variance }
    }
}

impl TensorMeta {
    pub fn duplicate(&self) -> (r: TensorMeta)
        ensures
            r@ == self@,
    {
        let mut indices: Vec<IndexMeta> = Vec::new();
        for i in 0..self.indices.len()
            invariant
                indices@.len() == i,
                forall|j: int| 0 <= j < i ==> #[trigger] indices@[j]@ == self.indices@[j]@,
        {
            indices.push(self.indices[i].duplicate());
        }
        let r = TensorMeta { latex: self.latex.clone(), indices };
        assert(r@.indices =~= self@.indices);
        r
    }
}

impl SymbolMeta {
    pub fn duplicate(&self) -> (r: SymbolMeta)
        ensures
            r@ == self@,
    {
        SymbolMeta {
            name: self.name.clone(),
            latex: self.latex.clone(),
            text: copy_opt_string(&self.text),
            tensor: match &self.tensor {
                Some(t) => Some(t.duplicate()),
                None => None,
            },
            source_range: self.source_range,
        }
    }
}

impl FunctionRenderMeta {
    pub fn duplicate(&self) -> (r: FunctionRenderMeta)
        ensures
            r@ == self@,
    {
        FunctionRenderMeta {
            qualified_name: self.qualified_name.clone(),
            latex_template: copy_opt_string(&self.latex_template),
            text_template: copy_opt_string(&self.text_template),
            precedence: self.precedence,
            kind: self.kind,
        }
    }
}

/// The symbols by name; an entry overrides the entries before it with the same name.
pub open spec fn symbol_map(v: Seq<SymbolMeta>) -> Map<Seq<char>, SymbolMetaView>
    decreases v.len(),
{
    if v.len() == 0 {
        Map::empty()
    } else {
        symbol_map(v.drop_last()).insert(v.last().name@, v.last()@)
    }
}

/// The function templates by qualified name; later entries override earlier ones.
pub open spec fn function_map(v: Seq<FunctionRenderMeta>) -> Map<Seq<char>, FunctionMetaView>
    decreases v.len(),
{
    if v.len() == 0 {
        Map::empty()
    } else {
        function_map(v.drop_last()).insert(v.last().qualified_name@, v.last()@)
    }
}

/// Symbols and function templates. Entries are kept in insertion order; for each name the
/// last entry is the one that counts.
#[derive(Debug, Clone)]
pub struct MetadataIndex {
    pub symbols: Vec<SymbolMeta>,
    pub functions: Vec<FunctionRenderMeta>,
}

pub struct MetadataView {
    pub symbols: Map<Seq<char>, SymbolMetaView>,
    pub functions: Map<Seq<char>, FunctionMetaView>,
}

impl View for MetadataIndex {
    type V = MetadataView;

    open spec fn view(&self) -> MetadataView {
        MetadataView { symbols: symbol_map(self.symbols@), functions: function_map(self.functions@) }
    }
}

pub proof fn lemma_symbol_map_append(a: Seq<SymbolMeta>, b: Seq<SymbolMeta>)
    ensures
        symbol_map(a + b) == symbol_map(a).union_prefer_right(symbol_map(b)),
    decreases b.len(),
{
    if b.len() == 0 {
        assert(a + b == a);
        assert(symbol_map(a).union_prefer_right(Map::empty()) =~= symbol_map(a));
    } else {
        lemma_symbol_map_append(a, b.drop_last());
        assert((a + b).drop_last() == a + b.drop_last());
        assert((a + b).last() == b.last());
        assert(symbol_map(a + b) =~= symbol_map(a).union_prefer_right(symbol_map(b)));
    }
}

pub proof fn lemma_function_map_append(a: Seq<FunctionRenderMeta>, b: Seq<FunctionRenderMeta>)
    ensures
        function_map(a + b) == function_map(a).union_prefer_right(function_map(b)),
    decreases b.len(),
{
    if b.len() == 0 {
        assert(a + b == a);
        assert(function_map(a).union_prefer_right(Map::empty()) =~= function_map(a));
    } else {
        lemma_function_map_append(a, b.drop_last());
        assert((a + b).drop_last() == a + b.drop_last());
        assert((a + b).last() == b.last());
        assert(function_map(a + b) =~= function_map(a).union_prefer_right(function_map(b)));
    }
}

/// The symbols by name, from their views; later entries override earlier ones.
pub open spec fn symbol_view_map(v: Seq<SymbolMetaView>) -> Map<Seq<char>, SymbolMetaView>
    decreases v.len(),
{
    if v.len() == 0 {
        Map::empty()
    } else {
        symbol_view_map(v.drop_last()).insert(v.last().name, v.last())
    }
}

/// The function templates by qualified name, from their views; later entries override.
pub open spec fn function_view_map(v: Seq<FunctionMetaView>) -> Map<Seq<char>, FunctionMetaView>
    decreases v.len(),
{
    if v.len() == 0 {
        Map::empty()
    } else {
        function_view_map(v.drop_last()).insert(v.last().qualified_name, v.last())
    }
}

pub proof fn lemma_symbol_map_views(v: Seq<SymbolMeta>)
    ensures
        symbol_map(v) == symbol_view_map(v.map_values(|m: SymbolMeta| m@)),
    decreases v.len(),
{
    if v.len() > 0 {
        lemma_symbol_map_views(v.drop_last());
        assert(v.drop_last().map_values(|m: SymbolMeta| m@) =~= v.map_values(|m: SymbolMeta| m@).drop_last());
    }
}

pub proof fn lemma_function_map_views(v: Seq<FunctionRenderMeta>)
    ensures
        function_map(v) == function_view_map(v.map_values(|m: FunctionRenderMeta| m@)),
    decreases v.len(),
{
    if v.len() > 0 {
        lemma_function_map_views(v.drop_last());
        assert(v.drop_last().map_values(|m: FunctionRenderMeta| m@) =~= v.map_values(
            |m: FunctionRenderMeta| m@,
        ).drop_last());
    }
}

/// The templates of a table of (name, template) pairs by name.
pub open spec fn templates_map(t: Seq<(Seq<char>, Seq<char>)>) -> Map<Seq<char>, FunctionMetaView>
    decreases t.len(),
{
    if t.len() == 0 {
        Map::empty()
    } else {
        templates_map(t.drop_last()).insert(t.last().0, builtin_meta(t.last().0, t.last().1))
    }
}

proof fn lemma_templates_map(v: Seq<FunctionRenderMeta>, t: Seq<(Seq<char>, Seq<char>)>)
    requires
        v.len() == t.len(),
        forall|i: int| 0 <= i < v.len() ==> #[trigger] v[i]@ == builtin_meta(t[i].0, t[i].1),
    ensures
        function_map(v) == templates_map(t),
    decreases v.len(),
{
    if v.len() > 0 {
        lemma_templates_map(v.drop_last(), t.drop_last());
        assert(v.last()@ == builtin_meta(t.last().0, t.last().1));
    }
}

/// The built-in templates of common mathematical functions.
pub open spec fn builtin_templates() -> Seq<(Seq<char>, Seq<char>)> {
    seq![
        ("abs"@, "\\left|{0}\\right|"@),
        ("sqrt"@, "\\sqrt{{{0}}}"@),
        ("math.sqrt"@, "\\sqrt{{{0}}}"@),
        ("np.sqrt"@, "\\sqrt{{{0}}}"@),
        ("sin"@, "\\sin\\left({0}\\right)"@),
        ("math.sin"@, "\\sin\\left({0}\\right)"@),
        ("np.sin"@, "\\sin\\left({0}\\right)"@),
        ("cos"@, "\\cos\\left({0}\\right)"@),
        ("math.cos"@, "\\cos\\left({0}\\right)"@),
        ("np.cos"@, "\\cos\\left({0}\\right)"@),
        ("exp"@, "e^{{{0}}}"@),
        ("math.exp"@, "e^{{{0}}}"@),
        ("np.exp"@, "e^{{{0}}}"@),
        ("log"@, "\\log\\left({0}\\right)"@),
        ("math.log"@, "\\log\\left({0}\\right)"@),
        ("np.log"@, "\\log\\left({0}\\right)"@),
        ("np.linalg.norm"@, "\\left\\|{0}\\right\\|"@),
    ]
}

/// The template entry of a built-in function.
pub open spec fn builtin_meta(name: Seq<char>, template: Seq<char>) -> FunctionMetaView {
    FunctionMetaView {
        qualified_name: name,
        latex_template: Some(template),
        text_template: None,
        precedence: None,
        kind: FunctionRenderKind::Template,
    }
}

fn template_meta(name: &str, template: &str) -> (m: FunctionRenderMeta)
    ensures
        m@ == builtin_meta(name@, template@),
{
    FunctionRenderMeta {
        qualified_name: name.to_owned(),
        latex_template: Some(template.to_owned()),
        text_template: None,
        precedence: None,
        kind: FunctionRenderKind::Template,
    }
}

impl MetadataIndex {
    /// No symbols and no functions.
    pub fn new() -> (m: MetadataIndex)
        ensures
            m.symbols@.len() == 0,
            m.functions@.len() == 0,
            m@.symbols == Map::<Seq<char>, SymbolMetaView>::empty(),
            m@.functions == Map::<Seq<char>, FunctionMetaView>::empty(),
    {
        MetadataIndex { symbols: Vec::new(), functions: Vec::new() }
    }

    /// Adds a symbol under its name, replacing an earlier one with that name.
    pub fn insert_symbol(&mut self, meta: SymbolMeta)
        ensures
            final(self)@.symbols == old(self)@.symbols.insert(meta.name@, meta@),
            final(self)@.functions == old(self)@.functions,
    {
        self.symbols.push(meta);
        assert(self.symbols@.drop_last() == old(self).symbols@);
    }

    /// Adds a function template under its qualified name, replacing an earlier one.
    pub fn insert_function(&mut self, meta: FunctionRenderMeta)
        ensures
            final(self)@.functions == old(self)@.functions.insert(meta.qualified_name@, meta@),
            final(self)@.symbols == old(self)@.symbols,
    {
        self.functions.push(meta);
        assert(self.functions@.drop_last() == old(self).functions@);
    }

    /// The templates of `abs`, `sqrt`, `sin`, `cos`, `exp`, `log` (bare, `math.` and `np.`)
    /// and `np.linalg.norm`.
    pub fn with_builtins() -> (m: MetadataIndex)
        ensures
            m@.symbols == Map::<Seq<char>, SymbolMetaView>::empty(),
            m@.functions == templates_map(builtin_templates()),
            m.functions@.len() == builtin_templates().len(),
            forall|i: int|
                0 <= i < m.functions@.len() ==> #[trigger] m.functions@[i]@ == builtin_meta(
                    builtin_templates()[i].0,
                    builtin_templates()[i].1,
                ),
    {
        let mut index = MetadataIndex::new();
        index.functions.push(template_meta("abs", "\\left|{0}\\right|"));
        index.functions.push(template_meta("sqrt", "\\sqrt{{{0}}}"));
        index.functions.push(template_meta("math.sqrt", "\\sqrt{{{0}}}"));
        index.functions.push(template_meta("np.sqrt", "\\sqrt{{{0}}}"));
        index.functions.push(template_meta("sin", "\\sin\\left({0}\\right)"));
        index.functions.push(template_meta("math.sin", "\\sin\\left({0}\\right)"));
        index.functions.push(template_meta("np.sin", "\\sin\\left({0}\\right)"));
        index.functions.push(template_meta("cos", "\\cos\\left({0}\\right)"));
        index.functions.push(template_meta("math.cos", "\\cos\\left({0}\\right)"));
        index.functions.push(template_meta("np.cos", "\\cos\\left({0}\\right)"));
        index.functions.push(template_meta("exp", "e^{{{0}}}"));
        index.functions.push(template_meta("math.exp", "e^{{{0}}}"));
        index.functions.push(template_meta("np.exp", "e^{{{0}}}"));
        index.functions.push(template_meta("log", "\\log\\left({0}\\right)"));
        index.functions.push(template_meta("math.log", "\\log\\left({0}\\right)"));
        index.functions.push(template_meta("np.log", "\\log\\left({0}\\right)"));
        index.functions.push(template_meta("np.linalg.norm", "\\left\\|{0}\\right\\|"));
        assert(index.functions@.len() == builtin_templates().len());
        proof {
            lemma_templates_map(index.functions@, builtin_templates());
        }
        index
    }

    /// Adds all entries of `other`; where both have a name, `other`'s entry wins.
    pub fn merge_overwrite(&mut self, other: MetadataIndex)
        ensures
            final(self)@.symbols == old(self)@.symbols.union_prefer_right(other@.symbols),
            final(self)@.functions == old(self)@.functions.union_prefer_right(other@.functions),
    {
        let ghost os = other.symbols@;
        let ghost of = other.functions@;
        let mut other = other;
        self.symbols.append(&mut other.symbols);
        self.functions.append(&mut other.functions);
        proof {
            lemma_symbol_map_append(old(self).symbols@, os);
            lemma_function_map_append(old(self).functions@, of);
        }
    }
}


impl MetadataIndex {
    /// The symbol registered under `name` (the last one added), if any.
    pub fn symbol_by_chars(&self, name: &[char]) -> (r: Option<&SymbolMeta>)
        ensures
            match r {
                Some(m) => self@.symbols.contains_key(name@) && self@.symbols[name@] == m@,
                None => !self@.symbols.contains_key(name@),
            },
    {
        let ghost v = self.symbols@;
        let mut i = self.symbols.len();
        assert(v.take(i as int) =~= v);
        while i > 0
            invariant
                i <= v.len(),
                v == self.symbols@,
                symbol_map(v).contains_key(name@) == symbol_map(v.take(i as int)).contains_key(name@),
                symbol_map(v).contains_key(name@) ==> symbol_map(v)[name@] == symbol_map(
                    v.take(i as int),
                )[name@],
            decreases i,
        {
            let meta = &self.symbols[i - 1];
            assert(v.take(i as int).drop_last() =~= v.take(i - 1));
            assert(v.take(i as int).last() == v[i - 1]);
            let key = chars_of(meta.name.as_str());
            if crate::text::seq_eq(&key, name) {
                return Some(meta);
            }
            i = i - 1;
        }
        None
    }

    /// The function template registered under `name` (the last one added), if any.
    pub fn function_by_chars(&self, name: &[char]) -> (r: Option<&FunctionRenderMeta>)
        ensures
            match r {
                Some(m) => self@.functions.contains_key(name@) && self@.functions[name@] == m@,
                None => !self@.functions.contains_key(name@),
            },
    {
        let ghost v = self.functions@;
        let mut i = self.functions.len();
        assert(v.take(i as int) =~= v);
        while i > 0
            invariant
                i <= v.len(),
                v == self.functions@,
                function_map(v).contains_key(name@) == function_map(v.take(i as int)).contains_key(
                    name@,
                ),
                function_map(v).contains_key(name@) ==> function_map(v)[name@] == function_map(
                    v.take(i as int),
                )[name@],
            decreases i,
        {
            let meta = &self.functions[i - 1];
            assert(v.take(i as int).drop_last() =~= v.take(i - 1));
            assert(v.take(i as int).last() == v[i - 1]);
            let key = chars_of(meta.qualified_name.as_str());
            if crate::text::seq_eq(&key, name) {
                return Some(meta);
            }
            i = i - 1;
        }
        None
    }

    /// The symbol registered under `name`, if any.
    pub fn symbol(&self, name: &str) -> (r: Option<&SymbolMeta>)
        ensures
            match r {
                Some(m) => self@.symbols.contains_key(name@) && self@.symbols[name@] == m@,
                None => !self@.symbols.contains_key(name@),
            },
    {
        let key = chars_of(name);
        self.symbol_by_chars(&key)
    }

    /// The function template registered under `name`, if any.
    pub fn function(&self, name: &str) -> (r: Option<&FunctionRenderMeta>)
        ensures
            match r {
                Some(m) => self@.functions.contains_key(name@) && self@.functions[name@] == m@,
                None => !self@.functions.contains_key(name@),
            },
    {
        let key = chars_of(name);
        self.function_by_chars(&key)
    }
}

/// A named symbol that `::query::` lookups and editor completion offer.
#[derive(Debug, Clone, PartialEq, Eq)]
pub struct SymbolLookupEntry {
    pub path: Vec<String>,
    pub aliases: Vec<String>,
    pub insert_text: String,
    pub display_symbol: String,
    pub description: String,
}

pub struct SymbolLookupEntryView {
    pub path: Seq<Seq<char>>,
    pub aliases: Seq<Seq<char>>,
    pub insert_text: Seq<char>,
    pub display_symbol: Seq<char>,
    pub description: Seq<char>,
}

pub open spec fn strings_view(v: Seq<String>) -> Seq<Seq<char>> {
    v.map_values(|s: String| s@)
}

impl View for SymbolLookupEntry {
    type V = SymbolLookupEntryView;

    open spec fn view(&self) -> SymbolLookupEntryView {
        SymbolLookupEntryView {
            path: strings_view(self.path@),
            aliases: strings_view(self.aliases@),
            insert_text: self.insert_text@,
            display_symbol: self.display_symbol@,
            description: self.description@,
        }
    }
}

/// A copy of a list of strings.
pub fn copy_strings(v: &Vec<String>) -> (r: Vec<String>)
    ensures
        strings_view(r@) == strings_view(v@),
{
    let mut r: Vec<String> = Vec::new();
    for i in 0..v.len()
        invariant
            r@.len() == i,
            forall|j: int| 0 <= j < i ==> #[trigger] r@[j]@ == v@[j]@,
    {
        r.push(v[i].clone());
    }
    assert(strings_view(r@) =~= strings_view(v@));
    r
}

impl SymbolLookupEntry {
    pub fn duplicate(&self) -> (r: SymbolLookupEntry)
        ensures
            r@ == self@,
    {
        SymbolLookupEntry {
            path: copy_strings(&self.path),
            aliases: copy_strings(&self.aliases),
            insert_text: self.insert_text.clone(),
            display_symbol: self.display_symbol.clone(),
            description: self.description.clone(),
        }
    }
}

/// The lowercase Greek letters with their names.
pub open spec fn greek_letters() -> Seq<(Seq<char>, char)> {
    seq![
        ("alpha"@, '\u{3b1}'),
        ("beta"@, '\u{3b2}'),
        ("gamma"@, '\u{3b3}'),
        ("delta"@, '\u{3b4}'),
        ("epsilon"@, '\u{3b5}'),
        ("theta"@, '\u{3b8}'),
        ("lambda"@, '\u{3bb}'),
        ("mu"@, '\u{3bc}'),
        ("nu"@, '\u{3bd}'),
        ("rho"@, '\u{3c1}'),
        ("sigma"@, '\u{3c3}'),
        ("tau"@, '\u{3c4}'),
        ("phi"@, '\u{3c6}'),
        ("psi"@, '\u{3c8}'),
        ("omega"@, '\u{3c9}'),
    ]
}

/// The lookup entry of a Greek letter: path `greek/<name>`, alias `<name>`.
pub open spec fn lookup_entry_spec(name: Seq<char>, letter: char) -> SymbolLookupEntryView {
    SymbolLookupEntryView {
        path: seq!["greek"@, name],
        aliases: seq![name],
        insert_text: seq![letter],
        display_symbol: seq![letter],
        description: "Greek lowercase "@ + name,
    }
}

/// All lookup entries, in order.
pub open spec fn lookup_table() -> Seq<SymbolLookupEntryView> {
    greek_letters().map_values(|p: (Seq<char>, char)| lookup_entry_spec(p.0, p.1))
}

fn lookup_entry(name: &str, letter: char) -> (e: SymbolLookupEntry)
    ensures
        e@ == lookup_entry_spec(name@, letter),
{
    let mut description: Vec<char> = Vec::new();
    push_str(&mut description, "Greek lowercase ");
    push_str(&mut description, name);
    let letter_text = string_of(&[letter]);
    assert([letter]@ == seq![letter]);
    let e = SymbolLookupEntry {
        path: vec!["greek".to_owned(), name.to_owned()],
        aliases: vec![name.to_owned()],
        insert_text: letter_text.clone(),
        display_symbol: letter_text,
        description: string_of(&description),
    };
    assert(e@.path =~= seq!["greek"@, name@]);
    assert(e@.aliases =~= seq![name@]);
    e
}

/// The symbols that lookups know: the lowercase Greek letters.
pub fn symbol_lookup_entries() -> (v: Vec<SymbolLookupEntry>)
    ensures
        v@.map_values(|e: SymbolLookupEntry| e@) == lookup_table(),
{
    let mut entries: Vec<SymbolLookupEntry> = Vec::new();
    entries.push(lookup_entry("alpha", '\u{3b1}'));
    entries.push(lookup_entry("beta", '\u{3b2}'));
    entries.push(lookup_entry("gamma", '\u{3b3}'));
    entries.push(lookup_entry("delta", '\u{3b4}'));
    entries.push(lookup_entry("epsilon", '\u{3b5}'));
    entries.push(lookup_entry("theta", '\u{3b8}'));
    entries.push(lookup_entry("lambda", '\u{3bb}'));
    entries.push(lookup_entry("mu", '\u{3bc}'));
    entries.push(lookup_entry("nu", '\u{3bd}'));
    entries.push(lookup_entry("rho", '\u{3c1}'));
    entries.push(lookup_entry("sigma", '\u{3c3}'));
    entries.push(lookup_entry("tau", '\u{3c4}'));
    entries.push(lookup_entry("phi", '\u{3c6}'));
    entries.push(lookup_entry("psi", '\u{3c8}'));
    entries.push(lookup_entry("omega", '\u{3c9}'));
    assert(entries@.map_values(|e: SymbolLookupEntry| e@) =~= lookup_table());
    entries
}

/// The non-empty pieces.
pub open spec fn nonempty_pieces(parts: Seq<Seq<char>>) -> Seq<Seq<char>>
    decreases parts.len(),
{
    if parts.len() == 0 {
        seq![]
    } else if parts.last().len() == 0 {
        nonempty_pieces(parts.drop_last())
    } else {
        nonempty_pieces(parts.drop_last()).push(parts.last())
    }
}

/// The first entry of `t` from index `i` on that satisfies `matches`.
pub open spec fn first_entry_from(
    t: Seq<SymbolLookupEntryView>,
    i: int,
    path: Option<Seq<Seq<char>>>,
    alias: Seq<char>,
) -> Option<SymbolLookupEntryView>
    decreases t.len() - i,
{
    if i < 0 || i >= t.len() {
        None
    } else if (match path {
        Some(p) => t[i].path == p,
        None => t[i].aliases.contains(alias),
    }) {
        Some(t[i])
    } else {
        first_entry_from(t, i + 1, path, alias)
    }
}

/// The entry that a lookup query names: `/greek/omega` by path, `omega` by alias.
pub open spec fn resolve_spec(query: Seq<char>) -> Option<SymbolLookupEntryView> {
    let q = trim(query);
    if q.len() == 0 {
        None
    } else if starts_with(q, seq!['/']) {
        first_entry_from(
            lookup_table(),
            0,
            Some(nonempty_pieces(crate::text::split_char(q.skip(1), '/'))),
            seq![],
        )
    } else {
        first_entry_from(lookup_table(), 0, None, q)
    }
}

fn strings_equal_pieces(a: &Vec<String>, b: &Vec<Vec<char>>) -> (r: bool)
    ensures
        r == (strings_view(a@) == b@.map_values(|p: Vec<char>| p@)),
{
    let ghost av = strings_view(a@);
    let ghost bv = b@.map_values(|p: Vec<char>| p@);
    if a.len() != b.len() {
        assert(av.len() != bv.len());
        return false;
    }
    for i in 0..a.len()
        invariant
            a@.len() == b@.len(),
            av == strings_view(a@),
            bv == b@.map_values(|p: Vec<char>| p@),
            forall|j: int| 0 <= j < i ==> av[j] == bv[j],
    {
        let x = chars_of(a[i].as_str());
        if !crate::text::seq_eq(&x, &b[i]) {
            assert(av[i as int] != bv[i as int]);
            return false;
        }
    }
    assert(av =~= bv);
    true
}

fn strings_contain(a: &Vec<String>, x: &[char]) -> (r: bool)
    ensures
        r == strings_view(a@).contains(x@),
{
    let ghost av = strings_view(a@);
    for i in 0..a.len()
        invariant
            av == strings_view(a@),
            forall|j: int| 0 <= j < i ==> av[j] != x@,
    {
        let y = chars_of(a[i].as_str());
        if crate::text::seq_eq(&y, x) {
            assert(av[i as int] == x@);
            return true;
        }
    }
    false
}

fn nonempty_pieces_exec(parts: &Vec<Vec<char>>) -> (r: Vec<Vec<char>>)
    ensures
        r@.map_values(|p: Vec<char>| p@) == nonempty_pieces(parts@.map_values(|p: Vec<char>| p@)),
{
    let ghost pv = parts@.map_values(|p: Vec<char>| p@);
    let mut r: Vec<Vec<char>> = Vec::new();
    for i in 0..parts.len()
        invariant
            pv == parts@.map_values(|p: Vec<char>| p@),
            r@.map_values(|p: Vec<char>| p@) == nonempty_pieces(pv.take(i as int)),
    {
        assert(pv.take(i + 1).drop_last() == pv.take(i as int));
        assert(pv.take(i + 1).last() == parts@[i as int]@);
        if parts[i].len() > 0 {
            let ghost before = r@.map_values(|p: Vec<char>| p@);
            r.push(subvec(&parts[i], 0, parts[i].len()));
            assert(parts@[i as int]@.subrange(0, parts@[i as int]@.len() as int) == parts@[i as int]@);
            assert(r@.map_values(|p: Vec<char>| p@) =~= before.push(parts@[i as int]@));
        }
    }
    assert(pv.take(parts@.len() as int) == pv);
    r
}

/// The entry that a lookup query names: `/greek/omega` by path, `omega` by alias.
pub fn resolve_symbol_lookup(query: &str) -> (r: Option<SymbolLookupEntry>)
    ensures
        r matches Some(e) ==> resolve_spec(query@) == Some(e@),
        r is None ==> resolve_spec(query@) is None,
{
    let qc = chars_of(query);
    let q = trim_chars(&qc);
    if q.len() == 0 {
        return None;
    }
    let entries = symbol_lookup_entries();
    let ghost t = lookup_table();
    let slash = ['/'];
    assert(slash@ == seq!['/']);
    let path: Option<Vec<Vec<char>>> = if crate::text::starts_with_chars(&q, &slash) {
        let rest = subvec(&q, 1, q.len());
        assert(rest@ == q@.skip(1));
        let parts = crate::text::split_on_char(&rest, '/');
        assert(parts@.map_values(|p: Vec<char>| p@) =~= crate::text::split_char(rest@, '/'));
        Some(nonempty_pieces_exec(&parts))
    } else {
        None
    };
    let ghost pathv: Option<Seq<Seq<char>>> = match &path {
        Some(p) => Some(p@.map_values(|x: Vec<char>| x@)),
        None => None,
    };
    let ghost alias: Seq<char> = if path is Some { seq![] } else { q@ };
    assert(resolve_spec(query@) == first_entry_from(t, 0, pathv, alias));
    for i in 0..entries.len()
        invariant
            entries@.map_values(|e: SymbolLookupEntry| e@) == t,
            t == lookup_table(),
            alias == (if path is Some { seq![] } else { q@ }),
            pathv == (match &path {
                Some(p) => Some(p@.map_values(|x: Vec<char>| x@)),
                None => None::<Seq<Seq<char>>>,
            }),
            resolve_spec(query@) == first_entry_from(t, i as int, pathv, alias),
    {
        assert(t[i as int] == entries@[i as int]@);
        let hit = match &path {
            Some(p) => strings_equal_pieces(&entries[i].path, p),
            None => strings_contain(&entries[i].aliases, &q),
        };
        if hit {
            return Some(entries[i].duplicate());
        }
    }
    None
}


/// What a lookup query becomes: the symbol it names, or the query itself with its `::` marks.
pub open spec fn expansion_of(query: Seq<char>) -> Seq<char> {
    match resolve_spec(query) {
        Some(e) => e.insert_text,
        None => seq![':', ':'] + query + seq![':', ':'],
    }
}

/// The text with every `::query::` that names a known symbol replaced by that symbol.
pub open spec fn expand_spec(rest: Seq<char>) -> Seq<char>
    decreases rest.len(),
{
    match find(rest, seq![':', ':']) {
        None => rest,
        Some(start) => {
            let after = rest.skip(start + 2);
            match find(after, seq![':', ':']) {
                None => rest,
                Some(end) => {
                    proof {
                        crate::text::lemma_find_in_bounds(rest, seq![':', ':'], 0);
                        crate::text::lemma_find_in_bounds(after, seq![':', ':'], 0);
                    }
                    rest.take(start) + expansion_of(after.take(end)) + expand_spec(
                        after.skip(end + 2),
                    )
                },
            }
        },
    }
}

/// Replaces each `::query::` that names a known symbol by the symbol (`::omega::` gives `ω`).
pub fn expand_symbol_lookups(source: &str) -> (out: String)
    ensures
        out@ == expand_spec(source@),
{
    let chars = chars_of(source);
    let r = expand_chars(&chars);
    string_of(&r)
}

pub fn expand_chars(source: &[char]) -> (out: Vec<char>)
    ensures
        out@ == expand_spec(source@),
{
    let sep = [':', ':'];
    assert(sep@ == seq![':', ':']);
    let mut out: Vec<char> = Vec::new();
    let mut rest = subvec(source, 0, source.len());
    assert(rest@ == source@);
    loop
        invariant
            sep@ == seq![':', ':'],
            expand_spec(source@) == out@ + expand_spec(rest@),
        decreases rest@.len(),
    {
        let start = match find_chars(&rest, &sep) {
            None => {
                push_all(&mut out, &rest);
                return out;
            },
            Some(st) => st,
        };
        let rlen = rest.len();
        assert(start + 2 <= rlen);
        let after = subvec(&rest, start + 2, rlen);
        assert(after@ == rest@.skip(start + 2));
        let end = match find_chars(&after, &sep) {
            None => {
                push_all(&mut out, &rest);
                return out;
            },
            Some(e) => e,
        };
        let alen = after.len();
        assert(end + 2 <= alen);
        let head = subvec(&rest, 0, start);
        assert(head@ == rest@.take(start as int));
        let query = subvec(&after, 0, end);
        assert(query@ == after@.take(end as int));
        let ghost prev = out@;
        push_all(&mut out, &head);
        let qs = string_of(&query);
        match resolve_symbol_lookup(qs.as_str()) {
            Some(entry) => {
                let ins = chars_of(entry.insert_text.as_str());
                push_all(&mut out, &ins);
            },
            None => {
                push_all(&mut out, &sep);
                push_all(&mut out, &query);
                push_all(&mut out, &sep);
            },
        }
        let next = subvec(&after, end + 2, alen);
        assert(next@ == after@.skip(end + 2));
        assert(out@ == prev + head@ + expansion_of(query@));
        assert(out@ + expand_spec(next@) == prev + (head@ + expansion_of(query@) + expand_spec(
            next@,
        )));
        rest = next;
    }
}


/// The name of a function defined by a `def name(...)` line.
pub open spec fn def_name_spec(t: Seq<char>) -> Option<Seq<char>> {
    if !starts_with(t, "def "@) {
        None
    } else {
        let rest = t.skip(4);
        match find(rest, seq!['(']) {
            None => None,
            Some(end) => Some(trim(rest.take(end))),
        }
    }
}

fn def_name(trimmed: &[char]) -> (r: Option<Vec<char>>)
    ensures
        r matches Some(n) ==> def_name_spec(trimmed@) == Some(n@),
        r is None ==> def_name_spec(trimmed@) is None,
{
    if !starts_with_str(trimmed, "def ") {
        return None;
    }
    proof {
        reveal_strlit("def ");
    }
    let rest = subvec(trimmed, 4, trimmed.len());
    assert(rest@ == trimmed@.skip(4));
    let end = match crate::text::find_char(&rest, '(') {
        None => return None,
        Some(e) => e,
    };
    let head = subvec(&rest, 0, end);
    assert(head@ == rest@.take(end as int));
    Some(trim_chars(&head))
}

/// Where the arguments of a constructor call end: the bracket that closes the call, from
/// index `i` on; a backslash inside a string skips the next character.
pub open spec fn ctor_end_from(s: Seq<char>, i: int, depth: int, quote: Option<char>) -> Option<int>
    decreases s.len() + 2 - i,
{
    if i < 0 || i >= s.len() {
        None
    } else {
        let c = s[i];
        match quote {
            Some(q) => if c == '\\' {
                ctor_end_from(s, i + 2, depth, quote)
            } else if c == q {
                ctor_end_from(s, i + 1, depth, None)
            } else {
                ctor_end_from(s, i + 1, depth, quote)
            },
            None => if c == '\'' || c == '"' {
                ctor_end_from(s, i + 1, depth, Some(c))
            } else if crate::scan::is_open_bracket(c) {
                ctor_end_from(s, i + 1, depth + 1, None)
            } else if crate::scan::is_close_bracket(c) {
                if depth - 1 == 0 {
                    Some(i)
                } else {
                    ctor_end_from(s, i + 1, depth - 1, None)
                }
            } else {
                ctor_end_from(s, i + 1, depth, None)
            },
        }
    }
}

pub proof fn lemma_ctor_end_bounds(s: Seq<char>, i: int, depth: int, quote: Option<char>)
    ensures
        ctor_end_from(s, i, depth, quote) matches Some(k) ==> i <= k < s.len(),
    decreases s.len() + 2 - i,
{
    if 0 <= i < s.len() {
        let c = s[i];
        match quote {
            Some(q) => if c == '\\' {
                lemma_ctor_end_bounds(s, i + 2, depth, quote);
            } else if c == q {
                lemma_ctor_end_bounds(s, i + 1, depth, None);
            } else {
                lemma_ctor_end_bounds(s, i + 1, depth, quote);
            },
            None => if c == '\'' || c == '"' {
                lemma_ctor_end_bounds(s, i + 1, depth, Some(c));
            } else if crate::scan::is_open_bracket(c) {
                lemma_ctor_end_bounds(s, i + 1, depth + 1, None);
            } else if crate::scan::is_close_bracket(c) {
                if depth - 1 != 0 {
                    lemma_ctor_end_bounds(s, i + 1, depth - 1, None);
                }
            } else {
                lemma_ctor_end_bounds(s, i + 1, depth, None);
            },
        }
    }
}

/// The first index at or after `i` where `p` occurs with no name character just before it,
/// so that `p` starts a word there (`Symbol(` in `md.Symbol(`, not in `FancySymbol(`).
pub open spec fn find_word_from(s: Seq<char>, p: Seq<char>, i: int) -> Option<int>
    decreases s.len() + 1 - i,
{
    match crate::text::find_from(s, p, i) {
        None => None,
        Some(k) => {
            proof {
                crate::text::lemma_find_in_bounds(s, p, i);
            }
            if k == 0 || !crate::ir::ident_continue(s[k - 1]) {
                Some(k)
            } else if k + 1 <= s.len() {
                find_word_from(s, p, k + 1)
            } else {
                None
            }
        },
    }
}

fn find_word_chars(s: &[char], p: &[char]) -> (r: Option<usize>)
    ensures
        r matches Some(k) ==> find_word_from(s@, p@, 0) == Some(k as int) && k + p@.len() <= s@.len(),
        r is None ==> find_word_from(s@, p@, 0) is None,
{
    let mut i: usize = 0;
    loop
        invariant
            i <= s@.len() + 1,
            find_word_from(s@, p@, 0) == find_word_from(s@, p@, i as int),
        decreases s@.len() + 1 - i,
    {
        proof {
            crate::text::lemma_find_in_bounds(s@, p@, i as int);
        }
        match crate::text::find_chars_from(s, p, i) {
            None => return None,
            Some(k) => {
                if k == 0 || !crate::ir::ident_continue_char(s[k - 1]) {
                    return Some(k);
                }
                if k >= s.len() {
                    return None;
                }
                i = k + 1;
            },
        }
    }
}

/// Where the first call `ctor(` stands in `t`: anywhere, or, for an annotation constructor
/// (`word`), only where the name starts a word.
pub open spec fn call_start(t: Seq<char>, ctor: Seq<char>, word: bool) -> Option<int> {
    if word {
        find_word_from(t, ctor + seq!['('], 0)
    } else {
        find(t, ctor + seq!['('])
    }
}

/// The argument text of the first call `ctor(...)` in `t` (see `call_start`).
pub open spec fn constructor_args_spec(t: Seq<char>, ctor: Seq<char>, word: bool) -> Option<Seq<char>> {
    match call_start(t, ctor, word) {
        None => None,
        Some(k) => {
            let start = k + ctor.len() + 1;
            match ctor_end_from(t, start, 1, None) {
                None => None,
                Some(e) => Some(t.subrange(start, e)),
            }
        },
    }
}

fn constructor_args(text: &[char], ctor: &str, word: bool) -> (r: Option<Vec<char>>)
    ensures
        r matches Some(a) ==> constructor_args_spec(text@, ctor@, word) == Some(a@),
        r is None ==> constructor_args_spec(text@, ctor@, word) is None,
{
    let mut pat = chars_of(ctor);
    let clen = pat.len();
    pat.push('(');
    assert(pat@ == ctor@ + seq!['(']);
    let found = if word {
        find_word_chars(text, &pat)
    } else {
        find_chars(text, &pat)
    };
    let k = match found {
        None => return None,
        Some(k) => k,
    };
    let tlen = text.len();
    assert(k + clen + 1 <= tlen);
    let start = k + clen + 1;
    let mut depth: i128 = 1;
    let mut quote: Option<char> = None;
    let mut idx = start;
    proof {
        lemma_ctor_end_bounds(text@, start as int, 1, None);
    }
    while idx < text.len()
        invariant
            start <= idx,
            start <= text@.len(),
            1 - (idx - start) <= depth <= 1 + (idx - start),
            constructor_args_spec(text@, ctor@, word) == (match ctor_end_from(
                text@,
                idx as int,
                depth as int,
                quote,
            ) {
                None => None,
                Some(e) => Some(text@.subrange(start as int, e)),
            }),
        decreases text@.len() + 2 - idx,
    {
        let c = text[idx];
        if let Some(q) = quote {
            if c == '\\' {
                if text.len() - idx < 2 {
                    proof {
                        reveal_with_fuel(ctor_end_from, 2);
                    }
                    return None;
                }
                idx = idx + 2;
            } else {
                if c == q {
                    quote = None;
                }
                idx = idx + 1;
            }
        } else if c == '\'' || c == '"' {
            quote = Some(c);
            idx = idx + 1;
        } else if c == '(' || c == '[' || c == '{' {
            depth = depth + 1;
            idx = idx + 1;
        } else if c == ')' || c == ']' || c == '}' {
            depth = depth - 1;
            if depth == 0 {
                return Some(subvec(text, start, idx));
            }
            idx = idx + 1;
        } else {
            idx = idx + 1;
        }
    }
    None
}

/// The characters that a byte-by-byte scan yields for `c`: each UTF-8 byte of `c` read as the
/// character with that code.
pub open spec fn bytes_as_chars(c: char) -> Seq<char> {
    let u = c as u32 as int;
    if u < 0x80 {
        seq![c]
    } else if u < 0x800 {
        seq![((0xC0 + u / 64) as u8) as char, ((0x80 + u % 64) as u8) as char]
    } else if u < 0x10000 {
        seq![
            ((0xE0 + u / 4096) as u8) as char,
            ((0x80 + (u / 64) % 64) as u8) as char,
            ((0x80 + u % 64) as u8) as char,
        ]
    } else {
        seq![
            ((0xF0 + u / 262144) as u8) as char,
            ((0x80 + (u / 4096) % 64) as u8) as char,
            ((0x80 + (u / 64) % 64) as u8) as char,
            ((0x80 + u % 64) as u8) as char,
        ]
    }
}

pub(crate) fn push_bytes_as_chars(out: &mut Vec<char>, c: char)
    ensures
        final(out)@ == old(out)@ + bytes_as_chars(c),
{
    let u = c as u32;
    proof {
        vstd::utf8::char_is_scalar(c);
    }
    if u < 0x80 {
        out.push(c);
    } else if u < 0x800 {
        out.push(((0xC0 + u / 64) as u8) as char);
        out.push(((0x80 + u % 64) as u8) as char);
    } else if u < 0x10000 {
        out.push(((0xE0 + u / 4096) as u8) as char);
        out.push(((0x80 + (u / 64) % 64) as u8) as char);
        out.push(((0x80 + u % 64) as u8) as char);
    } else {
        out.push(((0xF0 + u / 262144) as u8) as char);
        out.push(((0x80 + (u / 4096) % 64) as u8) as char);
        out.push(((0x80 + (u / 64) % 64) as u8) as char);
        out.push(((0x80 + u % 64) as u8) as char);
    }
}

/// Where the quote of a string literal stands, skipping the prefix letters and blanks before
/// it, and whether an `r` made it raw; `None` if another character comes first.
pub open spec fn string_prefix_from(s: Seq<char>, i: int, raw: bool) -> Option<(int, bool)>
    decreases s.len() - i,
{
    if i < 0 || i >= s.len() {
        None
    } else {
        let c = s[i];
        if c == 'r' || c == 'R' {
            string_prefix_from(s, i + 1, true)
        } else if c == 'u' || c == 'U' || c == 'b' || c == 'B' || c == 'f' || c == 'F' || c
            == ' ' || c == '\t' {
            string_prefix_from(s, i + 1, raw)
        } else if c == '\'' || c == '"' {
            Some((i, raw))
        } else {
            None
        }
    }
}

/// The value of the string body from index `i` on, up to the closing quote `q`, and the index
/// after that quote.
pub open spec fn string_body_from(s: Seq<char>, q: char, raw: bool, i: int, acc: Seq<char>) -> Option<
    (Seq<char>, int),
>
    decreases s.len() - i,
{
    if i < 0 || i >= s.len() {
        None
    } else {
        let c = s[i];
        if c == q {
            Some((acc, i + 1))
        } else if c == '\\' && !raw && i + 1 < s.len() {
            let n = s[i + 1];
            string_body_from(s, q, raw, i + 2, acc + (if n == 'n' {
                seq!['\n']
            } else if n == 't' {
                seq!['\t']
            } else if n == '\\' || n == '\'' || n == '"' {
                seq![n]
            } else {
                bytes_as_chars(n)
            }))
        } else {
            string_body_from(s, q, raw, i + 1, acc + bytes_as_chars(c))
        }
    }
}

/// The string literal at the start of `t` (after prefix letters and blanks): its value and
/// the number of characters up to and including its closing quote.
pub open spec fn parse_string_at_spec(t: Seq<char>) -> Option<(Seq<char>, int)> {
    match string_prefix_from(t, 0, false) {
        None => None,
        Some((k, raw)) => string_body_from(t, t[k], raw, k + 1, seq![]),
    }
}

pub proof fn lemma_string_prefix_bounds(s: Seq<char>, i: int, raw: bool)
    requires
        0 <= i,
    ensures
        string_prefix_from(s, i, raw) matches Some((k, _)) ==> i <= k < s.len() && (s[k] == '\''
            || s[k] == '"'),
    decreases s.len() - i,
{
    if i < s.len() {
        let c = s[i];
        if c == 'r' || c == 'R' {
            lemma_string_prefix_bounds(s, i + 1, true);
        } else if c == 'u' || c == 'U' || c == 'b' || c == 'B' || c == 'f' || c == 'F' || c
            == ' ' || c == '\t' {
            lemma_string_prefix_bounds(s, i + 1, raw);
        }
    }
}

pub proof fn lemma_string_body_bounds(s: Seq<char>, q: char, raw: bool, i: int, acc: Seq<char>)
    ensures
        string_body_from(s, q, raw, i, acc) matches Some((_, e)) ==> i < e <= s.len(),
    decreases s.len() - i,
{
    if 0 <= i < s.len() {
        let c = s[i];
        if c != q {
            if c == '\\' && !raw && i + 1 < s.len() {
                let n = s[i + 1];
                lemma_string_body_bounds(s, q, raw, i + 2, acc + (if n == 'n' {
                    seq!['\n']
                } else if n == 't' {
                    seq!['\t']
                } else if n == '\\' || n == '\'' || n == '"' {
                    seq![n]
                } else {
                    bytes_as_chars(n)
                }));
            } else {
                lemma_string_body_bounds(s, q, raw, i + 1, acc + bytes_as_chars(c));
            }
        }
    }
}

fn string_prefix_end(text: &[char]) -> (r: Option<(usize, bool)>)
    ensures
        r matches Some((k, raw)) ==> string_prefix_from(text@, 0, false) == Some((k as int, raw)),
        r is None ==> string_prefix_from(text@, 0, false) is None,
{
    let mut idx: usize = 0;
    let mut raw = false;
    while idx < text.len()
        invariant
            idx <= text@.len(),
            string_prefix_from(text@, 0, false) == string_prefix_from(text@, idx as int, raw),
        decreases text@.len() - idx,
    {
        let c = text[idx];
        if c == 'r' || c == 'R' {
            raw = true;
            idx = idx + 1;
        } else if c == 'u' || c == 'U' || c == 'b' || c == 'B' || c == 'f' || c == 'F' || c == ' '
            || c == '\t' {
            idx = idx + 1;
        } else if c == '\'' || c == '"' {
            return Some((idx, raw));
        } else {
            return None;
        }
    }
    None
}

fn parse_string_at(text: &[char]) -> (r: Option<(Vec<char>, usize)>)
    ensures
        r matches Some((v, n)) ==> parse_string_at_spec(text@) == Some((v@, n as int)) && 0 < n
            <= text@.len(),
        r is None ==> parse_string_at_spec(text@) is None,
{
    let (k, raw) = match string_prefix_end(text) {
        None => return None,
        Some(p) => p,
    };
    proof {
        lemma_string_prefix_bounds(text@, 0, false);
    }
    let mut idx = k;
    let quote = text[idx];
    idx = idx + 1;
    let mut value: Vec<char> = Vec::new();
    assert(value@ == Seq::<char>::empty());
    proof {
        lemma_string_body_bounds(text@, quote, raw, idx as int, seq![]);
    }
    while idx < text.len()
        invariant
            idx <= text@.len(),
            parse_string_at_spec(text@) == string_body_from(text@, quote, raw, idx as int, value@),
        decreases text@.len() - idx,
    {
        let c = text[idx];
        if c == quote {
            return Some((value, idx + 1));
        }
        if c == '\\' && !raw && idx + 1 < text.len() {
            let n = text[idx + 1];
            let ghost v0 = value@;
            if n == 'n' {
                value.push('\n');
                assert(value@ == v0 + seq!['\n']);
            } else if n == 't' {
                value.push('\t');
                assert(value@ == v0 + seq!['\t']);
            } else if n == '\\' || n == '\'' || n == '"' {
                value.push(n);
                assert(value@ == v0 + seq![n]);
            } else {
                push_bytes_as_chars(&mut value, n);
            }
            idx = idx + 2;
        } else {
            push_bytes_as_chars(&mut value, c);
            idx = idx + 1;
        }
    }
    None
}


/// The string after `key=` in a call's arguments.
pub open spec fn kw_string_spec(args: Seq<char>, key: Seq<char>) -> Option<Seq<char>> {
    match find(args, key + seq!['=']) {
        None => None,
        Some(k) => match parse_string_at_spec(args.skip(k + key.len() + 1)) {
            Some((v, _)) => Some(v),
            None => None,
        },
    }
}

fn parse_kw_string(args: &[char], key: &str) -> (r: Option<Vec<char>>)
    ensures
        r matches Some(v) ==> kw_string_spec(args@, key@) == Some(v@),
        r is None ==> kw_string_spec(args@, key@) is None,
{
    let mut marker = chars_of(key);
    let klen = marker.len();
    marker.push('=');
    assert(marker@ == key@ + seq!['=']);
    let k = match find_chars(args, &marker) {
        None => return None,
        Some(k) => k,
    };
    let alen = args.len();
    assert(k + klen + 1 <= alen);
    let rest = subvec(args, k + klen + 1, alen);
    assert(rest@ == args@.skip(k + klen + 1));
    match parse_string_at(&rest) {
        Some((v, _)) => Some(v),
        None => None,
    }
}

/// The value of a run of decimal digits.
pub open spec fn decimal_value(d: Seq<char>) -> int
    decreases d.len(),
{
    if d.len() == 0 {
        0
    } else {
        decimal_value(d.drop_last()) * 10 + (d.last() as int - '0' as int)
    }
}

/// The leading ASCII digits of `s` from index `i` on.
pub open spec fn digits_from(s: Seq<char>, i: int) -> int
    decreases s.len() - i,
{
    if 0 <= i < s.len() && crate::text::is_ascii_digit(s[i]) {
        digits_from(s, i + 1)
    } else {
        i
    }
}

/// `u64` parsing of the digits that follow `key=`.
pub open spec fn kw_int_spec(args: Seq<char>, key: Seq<char>) -> Option<u64> {
    match find(args, key + seq!['=']) {
        None => None,
        Some(k) => {
            let rest = args.skip(k + key.len() + 1);
            let digits = rest.take(digits_from(rest, 0));
            if digits.len() == 0 || decimal_value(digits) > u64::MAX {
                None
            } else {
                Some(decimal_value(digits) as u64)
            }
        },
    }
}

pub proof fn lemma_decimal_prefix_le(d: Seq<char>, i: int)
    requires
        0 <= i <= d.len(),
        forall|j: int| 0 <= j < d.len() ==> crate::text::is_ascii_digit(#[trigger] d[j]),
    ensures
        0 <= decimal_value(d.take(i)) <= decimal_value(d),
    decreases d.len() - i,
{
    if i < d.len() {
        lemma_decimal_prefix_le(d, i + 1);
        assert(d.take(i + 1).drop_last() == d.take(i));
        lemma_decimal_nonneg(d.take(i));
    } else {
        assert(d.take(i) == d);
        lemma_decimal_nonneg(d);
    }
}

pub proof fn lemma_decimal_nonneg(d: Seq<char>)
    requires
        forall|j: int| 0 <= j < d.len() ==> crate::text::is_ascii_digit(#[trigger] d[j]),
    ensures
        0 <= decimal_value(d),
    decreases d.len(),
{
    if d.len() > 0 {
        lemma_decimal_nonneg(d.drop_last());
    }
}

pub proof fn lemma_digits_bounds(s: Seq<char>, i: int)
    requires
        0 <= i <= s.len(),
    ensures
        i <= digits_from(s, i) <= s.len(),
        forall|j: int| i <= j < digits_from(s, i) ==> crate::text::is_ascii_digit(#[trigger] s[j]),
    decreases s.len() - i,
{
    if i < s.len() && crate::text::is_ascii_digit(s[i]) {
        lemma_digits_bounds(s, i + 1);
    }
}

fn parse_kw_int(args: &[char], key: &str) -> (r: Option<u64>)
    ensures
        r == kw_int_spec(args@, key@),
{
    let mut marker = chars_of(key);
    let klen = marker.len();
    marker.push('=');
    assert(marker@ == key@ + seq!['=']);
    let k = match find_chars(args, &marker) {
        None => return None,
        Some(k) => k,
    };
    let alen = args.len();
    assert(k + klen + 1 <= alen);
    let rest = subvec(args, k + klen + 1, alen);
    assert(rest@ == args@.skip(k + klen + 1));
    let mut n: usize = 0;
    while n < rest.len() && crate::text::is_ascii_digit_char(rest[n])
        invariant
            n <= rest@.len(),
            digits_from(rest@, 0) == digits_from(rest@, n as int),
        decreases rest.len() - n,
    {
        n = n + 1;
    }
    let ghost digits = rest@.take(n as int);
    proof {
        lemma_digits_bounds(rest@, 0);
        assert forall|j: int| 0 <= j < digits.len() implies crate::text::is_ascii_digit(
            #[trigger] digits[j],
        ) by {
            assert(digits[j] == rest@[j]);
        }
    }
    if n == 0 {
        return None;
    }
    let mut v: u64 = 0;
    let mut i: usize = 0;
    while i < n
        invariant
            i <= n <= rest@.len(),
            digits == rest@.take(n as int),
            n == digits_from(rest@, 0),
            n > 0,
            rest@ == args@.skip(k + key@.len() + 1),
            find(args@, key@ + seq!['=']) == Some(k as int),
            forall|j: int| 0 <= j < digits.len() ==> crate::text::is_ascii_digit(#[trigger] digits[j]),
            v == decimal_value(digits.take(i as int)),
        decreases n - i,
    {
        assert(digits.take(i + 1).drop_last() == digits.take(i as int));
        assert(digits.take(i + 1).last() == rest@[i as int]);
        let d = (rest[i] as u32 - '0' as u32) as u64;
        let m = match v.checked_mul(10) {
            Some(m) => m,
            None => {
                proof {
                    lemma_decimal_prefix_le(digits, i + 1);
                }
                return None;
            },
        };
        v = match m.checked_add(d) {
            Some(x) => x,
            None => {
                proof {
                    lemma_decimal_prefix_le(digits, i + 1);
                }
                return None;
            },
        };
        i = i + 1;
    }
    assert(digits.take(n as int) == digits);
    Some(v)
}

/// The values of all string literals in the text from index `i` on, in order.
pub open spec fn all_strings_from(s: Seq<char>, i: int) -> Seq<Seq<char>>
    decreases s.len() - i,
{
    if i < 0 || i >= s.len() {
        seq![]
    } else {
        match parse_string_at_spec(s.skip(i)) {
            Some((v, c)) => if 0 < c <= s.len() - i {
                seq![v] + all_strings_from(s, i + c)
            } else {
                seq![]
            },
            None => all_strings_from(s, i + 1),
        }
    }
}

fn parse_all_strings(args: &[char]) -> (out: Vec<Vec<char>>)
    ensures
        out@.map_values(|v: Vec<char>| v@) == all_strings_from(args@, 0),
{
    let mut out: Vec<Vec<char>> = Vec::new();
    let mut idx: usize = 0;
    while idx < args.len()
        invariant
            idx <= args@.len(),
            all_strings_from(args@, 0) == out@.map_values(|v: Vec<char>| v@) + all_strings_from(
                args@,
                idx as int,
            ),
        decreases args@.len() - idx,
    {
        let rest = subvec(args, idx, args.len());
        assert(rest@ == args@.skip(idx as int));
        match parse_string_at(&rest) {
            Some((v, c)) => {
                let ghost before = out@.map_values(|v: Vec<char>| v@);
                out.push(v);
                assert(out@.map_values(|v: Vec<char>| v@) =~= before.push(v@));
                assert(before.push(v@) + all_strings_from(args@, idx + c) =~= before + (seq![v@]
                    + all_strings_from(args@, idx + c)));
                idx = idx + c;
            },
            None => {
                idx = idx + 1;
            },
        }
    }
    assert(all_strings_from(args@, idx as int) == Seq::<Seq<char>>::empty());
    assert(out@.map_values(|v: Vec<char>| v@) + Seq::<Seq<char>>::empty() == out@.map_values(
        |v: Vec<char>| v@,
    ));
    out
}

/// The template that a `@render_as(latex=..., text=..., precedence=...)` decorator gives the
/// function `name`.
pub open spec fn render_as_spec(name: Seq<char>, decorator: Seq<char>) -> Option<FunctionMetaView> {
    if !crate::text::contains(decorator, "render_as"@) {
        None
    } else {
        match constructor_args_spec(decorator, "render_as"@, false) {
            None => None,
            Some(args) => Some(
                FunctionMetaView {
                    qualified_name: name,
                    latex_template: kw_string_spec(args, "latex"@),
                    text_template: kw_string_spec(args, "text"@),
                    precedence: match kw_int_spec(args, "precedence"@) {
                        Some(v) => Some(v as u8),
                        None => None,
                    },
                    kind: FunctionRenderKind::Template,
                },
            ),
        }
    }
}

fn opt_string(v: Option<Vec<char>>) -> (r: Option<String>)
    ensures
        crate::ast::opt_view(r) == (match v {
            Some(x) => Some(x@),
            None => None::<Seq<char>>,
        }),
{
    match v {
        Some(x) => Some(string_of(&x)),
        None => None,
    }
}

fn parse_render_as_decorator(name: &[char], decorator: &[char]) -> (r: Option<FunctionRenderMeta>)
    ensures
        r matches Some(m) ==> render_as_spec(name@, decorator@) == Some(m@),
        r is None ==> render_as_spec(name@, decorator@) is None,
{
    if !crate::text::contains_str(decorator, "render_as") {
        return None;
    }
    let args = match constructor_args(decorator, "render_as", false) {
        None => return None,
        Some(a) => a,
    };
    let latex = parse_kw_string(&args, "latex");
    let text = parse_kw_string(&args, "text");
    let precedence = match parse_kw_int(&args, "precedence") {
        Some(v) => Some(v as u8),
        None => None,
    };
    Some(
        FunctionRenderMeta {
            qualified_name: string_of(name),
            latex_template: opt_string(latex),
            text_template: opt_string(text),
            precedence,
            kind: FunctionRenderKind::Template,
        },
    )
}

/// The symbol that an annotated declaration `name: Annotated[..., Tensor(...)]` or
/// `name: Annotated[..., Symbol(...)]` declares.
pub open spec fn symbol_line_spec(t: Seq<char>, range: TextRange) -> Option<SymbolMetaView> {
    match find(t, seq![':']) {
        None => None,
        Some(colon) => {
            let name = trim(t.take(colon));
            if name.len() == 0 || !crate::text::contains(t.skip(colon), "Annotated"@) {
                None
            } else {
                match constructor_args_spec(t, "Tensor"@, true) {
                    Some(args) => {
                        let strings = all_strings_from(args, 0);
                        if strings.len() == 0 {
                            None
                        } else {
                            Some(
                                SymbolMetaView {
                                    name,
                                    latex: strings[0],
                                    text: None,
                                    tensor: Some(
                                        TensorMetaView {
                                            latex: strings[0],
                                            indices: strings.skip(1).map_values(
                                                |n: Seq<char>|
                                                    IndexMetaView {
                                                        name: n,
                                                        variance: Variance::Covariant,
                                                    },
                                            ),
                                        },
                                    ),
                                    source_range: range,
                                },
                            )
                        }
                    },
                    None => match constructor_args_spec(t, "Symbol"@, true) {
                        None => None,
                        Some(args) => {
                            let strings = all_strings_from(args, 0);
                            if strings.len() == 0 {
                                None
                            } else {
                                Some(
                                    SymbolMetaView {
                                        name,
                                        latex: strings[0],
                                        text: kw_string_spec(args, "text"@),
                                        tensor: None,
                                        source_range: range,
                                    },
                                )
                            }
                        },
                    },
                }
            }
        },
    }
}

fn parse_symbol_or_tensor_line(trimmed: &[char], source_range: TextRange) -> (r: Option<SymbolMeta>)
    ensures
        r matches Some(m) ==> symbol_line_spec(trimmed@, source_range) == Some(m@),
        r is None ==> symbol_line_spec(trimmed@, source_range) is None,
{
    let colon = match crate::text::find_char(trimmed, ':') {
        None => return None,
        Some(c) => c,
    };
    let head = subvec(trimmed, 0, colon);
    assert(head@ == trimmed@.take(colon as int));
    let name = trim_chars(&head);
    let tail = subvec(trimmed, colon, trimmed.len());
    assert(tail@ == trimmed@.skip(colon as int));
    if name.len() == 0 || !crate::text::contains_str(&tail, "Annotated") {
        return None;
    }
    if let Some(args) = constructor_args(trimmed, "Tensor", true) {
        let strings = parse_all_strings(&args);
        let ghost sv = all_strings_from(args@, 0);
        assert(strings@.len() == sv.len());
        if strings.len() == 0 {
            return None;
        }
        assert(strings@[0]@ == sv[0]);
        let latex = string_of(&strings[0]);
        let mut indices: Vec<IndexMeta> = Vec::new();
        let mut i: usize = 1;
        while i < strings.len()
            invariant
                1 <= i <= strings@.len(),
                strings@.map_values(|v: Vec<char>| v@) == sv,
                indices@.len() == i - 1,
                forall|j: int|
                    0 <= j < i - 1 ==> #[trigger] indices@[j]@ == (IndexMetaView {
                        name: sv[j + 1],
                        variance: Variance::Covariant,
                    }),
            decreases strings.len() - i,
        {
            assert(strings@[i as int]@ == sv[i as int]);
            indices.push(IndexMeta { name: string_of(&strings[i]), variance: Variance::Covariant });
            i = i + 1;
        }
        let meta = SymbolMeta {
            name: string_of(&name),
            latex: latex.clone(),
            text: None,
            tensor: Some(TensorMeta { latex, indices }),
            source_range,
        };
        assert(meta@.tensor.unwrap().indices =~= sv.skip(1).map_values(
            |n: Seq<char>| IndexMetaView { name: n, variance: Variance::Covariant },
        ));
        return Some(meta);
    }
    if let Some(args) = constructor_args(trimmed, "Symbol", true) {
        let strings = parse_all_strings(&args);
        let ghost sv = all_strings_from(args@, 0);
        assert(strings@.len() == sv.len());
        if strings.len() == 0 {
            return None;
        }
        assert(strings@[0]@ == sv[0]);
        let text = opt_string(parse_kw_string(&args, "text"));
        return Some(
            SymbolMeta {
                name: string_of(&name),
                latex: string_of(&strings[0]),
                text,
                tensor: None,
                source_range,
            },
        );
    }
    None
}


/// The templates that the pending decorators give the function `name`, in order.
pub open spec fn decorator_functions(name: Seq<char>, decs: Seq<Seq<char>>) -> Seq<FunctionMetaView>
    decreases decs.len(),
{
    if decs.len() == 0 {
        seq![]
    } else {
        let r = decorator_functions(name, decs.drop_last());
        match render_as_spec(name, decs.last()) {
            Some(m) => r.push(m),
            None => r,
        }
    }
}

/// What one line does: the decorators pending after it, and the symbols and templates it
/// declares. `offset` is the byte offset of the line.
#[verifier::opaque]
pub open spec fn inline_step(line: Seq<char>, decs: Seq<Seq<char>>, offset: int) -> (
    Seq<Seq<char>>,
    Seq<SymbolMetaView>,
    Seq<FunctionMetaView>,
) {
    let t = trim(line);
    let end = offset + crate::text::utf8_len(line);
    let range = TextRange { start: offset as usize, end: end as usize };
    if starts_with(t, seq!['@']) {
        (decs.push(t), seq![], seq![])
    } else {
        let (decs2, fns) = match def_name_spec(t) {
            Some(name) => (seq![], decorator_functions(name, decs)),
            None => (if t.len() > 0 && !starts_with(t, seq!['#']) {
                seq![]
            } else {
                decs
            }, seq![]),
        };
        let sym = match symbol_line_spec(t, range) {
            Some(m) => seq![m],
            None => seq![],
        };
        (decs2, sym, fns)
    }
}

/// The symbols and function templates declared by the lines from index `j` on, given the
/// decorators seen since the last statement and the byte offset of line `j` (line lengths
/// are counted without the `'\r'` of a CRLF ending, plus one for the `'\n'`).
pub open spec fn inline_from(ls: Seq<Seq<char>>, j: int, decs: Seq<Seq<char>>, offset: int) -> (
    Seq<SymbolMetaView>,
    Seq<FunctionMetaView>,
)
    decreases ls.len() - j,
{
    if j < 0 || j >= ls.len() {
        (seq![], seq![])
    } else {
        let (decs2, sa, fa) = inline_step(ls[j], decs, offset);
        let (rs, rf) = inline_from(
            ls,
            j + 1,
            decs2,
            offset + crate::text::utf8_len(ls[j]) + 1,
        );
        (sa + rs, fa + rf)
    }
}

pub open spec fn symbols_view(v: Seq<SymbolMeta>) -> Seq<SymbolMetaView> {
    v.map_values(|m: SymbolMeta| m@)
}

pub open spec fn functions_view(v: Seq<FunctionRenderMeta>) -> Seq<FunctionMetaView> {
    v.map_values(|m: FunctionRenderMeta| m@)
}

pub open spec fn pieces_view(v: Seq<Vec<char>>) -> Seq<Seq<char>> {
    v.map_values(|d: Vec<char>| d@)
}

/// Processes one line of `extract_inline_metadata`.
fn inline_line(
    index: &mut MetadataIndex,
    decorators: &mut Vec<Vec<char>>,
    line: &Vec<char>,
    offset: usize,
    end: usize,
)
    requires
        end == offset + crate::text::utf8_len(line@),
    ensures
        ({
            let (d2, sa, fa) = inline_step(line@, pieces_view(old(decorators)@), offset as int);
            &&& pieces_view(final(decorators)@) == d2
            &&& symbols_view(final(index).symbols@) == symbols_view(old(index).symbols@) + sa
            &&& functions_view(final(index).functions@) == functions_view(old(index).functions@)
                + fa
        }),
{
    reveal(inline_step);
    let trimmed = trim_chars(line);
    let range = TextRange { start: offset, end };
    let ghost decs = pieces_view(decorators@);
    let ghost syms = symbols_view(index.symbols@);
    let ghost fnsv = functions_view(index.functions@);
    let at = ['@'];
    assert(at@ == seq!['@']);
    if crate::text::starts_with_chars(&trimmed, &at) {
        let ghost t = trimmed@;
        decorators.push(trimmed);
        assert(pieces_view(decorators@) =~= decs.push(t));
        assert(symbols_view(index.symbols@) =~= syms + Seq::<SymbolMetaView>::empty());
        assert(functions_view(index.functions@) =~= fnsv + Seq::<FunctionMetaView>::empty());
        return;
    }
    match def_name(&trimmed) {
        Some(name) => {
            for d in 0..decorators.len()
                invariant
                    decs == pieces_view(decorators@),
                    functions_view(index.functions@) == fnsv + decorator_functions(
                        name@,
                        decs.take(d as int),
                    ),
                    symbols_view(index.symbols@) == syms,
            {
                assert(decs.take(d + 1).drop_last() == decs.take(d as int));
                assert(decs.take(d + 1).last() == decorators@[d as int]@);
                if let Some(meta) = parse_render_as_decorator(&name, &decorators[d]) {
                    let ghost f0 = functions_view(index.functions@);
                    index.functions.push(meta);
                    assert(functions_view(index.functions@) =~= f0.push(meta@));
                }
            }
            assert(decs.take(decorators@.len() as int) == decs);
            *decorators = Vec::new();
            assert(pieces_view(decorators@) =~= Seq::<Seq<char>>::empty());
        },
        None => {
            let hash = ['#'];
            assert(hash@ == seq!['#']);
            if trimmed.len() > 0 && !crate::text::starts_with_chars(&trimmed, &hash) {
                *decorators = Vec::new();
                assert(pieces_view(decorators@) =~= Seq::<Seq<char>>::empty());
            }
            assert(functions_view(index.functions@) =~= fnsv + Seq::<FunctionMetaView>::empty());
        },
    }
    let ghost s0 = symbols_view(index.symbols@);
    if let Some(meta) = parse_symbol_or_tensor_line(&trimmed, range) {
        index.symbols.push(meta);
        assert(symbols_view(index.symbols@) =~= s0 + seq![meta@]);
    } else {
        assert(symbols_view(index.symbols@) =~= s0 + Seq::<SymbolMetaView>::empty());
    }
}

/// The symbols and templates declared inline in a Python source text.
pub open spec fn inline_spec(source: Seq<char>) -> (Seq<SymbolMetaView>, Seq<FunctionMetaView>) {
    inline_from(crate::scan::lines(source), 0, seq![], 0)
}

/// The bytes that a list of lines takes, one more than each line's length.
pub open spec fn pieces_bytes(ps: Seq<Seq<char>>) -> int
    decreases ps.len(),
{
    if ps.len() == 0 {
        0
    } else {
        pieces_bytes(ps.drop_last()) + crate::text::utf8_len(ps.last()) + 1
    }
}

pub proof fn lemma_split_bytes(s: Seq<char>)
    ensures
        pieces_bytes(crate::text::split_char(s, '\n')) == crate::text::utf8_len(s) + 1,
    decreases s.len(),
{
    if s.len() == 0 {
        let t = crate::text::split_char(s, '\n');
        assert(t == seq![Seq::<char>::empty()]);
        assert(t.drop_last() == Seq::<Seq<char>>::empty());
        assert(pieces_bytes(t) == pieces_bytes(t.drop_last()) + crate::text::utf8_len(t.last()) + 1);
    }
    if s.len() > 0 {
        let init = s.drop_last();
        lemma_split_bytes(init);
        crate::scan::lemma_split_char_nonempty(init, '\n');
        let r = crate::text::split_char(init, '\n');
        assert(crate::text::utf8_len(s) == crate::text::utf8_len(init) + crate::text::utf8_width(s.last()));
        if s.last() == '\n' {
            let t = r.push(Seq::<char>::empty());
            assert(t.drop_last() == r);
            assert(t.last() == Seq::<char>::empty());
            assert(pieces_bytes(t) == pieces_bytes(r) + crate::text::utf8_len(Seq::<char>::empty()) + 1);
            assert(crate::text::split_char(s, '\n') == t);
            assert(t.drop_last() == r);
            assert(crate::text::utf8_len(Seq::<char>::empty()) == 0);
            assert(crate::text::utf8_width('\n') == 1);
        } else {
            let t = r.update(r.len() - 1, r.last().push(s.last()));
            assert(crate::text::split_char(s, '\n') == t);
            assert(t.drop_last() == r.drop_last());
            assert(t.last() == r.last().push(s.last()));
            assert(r.last().push(s.last()).drop_last() == r.last());
            assert(r.last().push(s.last()).last() == s.last());
            assert(crate::text::utf8_len(t.last()) == crate::text::utf8_len(r.last())
                + crate::text::utf8_width(s.last()));
            assert(pieces_bytes(t) == pieces_bytes(t.drop_last()) + crate::text::utf8_len(t.last())
                + 1);
            assert(pieces_bytes(r) == pieces_bytes(r.drop_last()) + crate::text::utf8_len(r.last())
                + 1);
        }
    }
}

pub proof fn lemma_pieces_bytes_prefix(ps: Seq<Seq<char>>, j: int)
    requires
        0 <= j <= ps.len(),
    ensures
        0 <= pieces_bytes(ps.take(j)) <= pieces_bytes(ps),
    decreases ps.len() - j,
{
    if j < ps.len() {
        lemma_pieces_bytes_prefix(ps, j + 1);
        assert(ps.take(j + 1).drop_last() == ps.take(j));
        lemma_pieces_bytes_nonneg(ps.take(j));
    } else {
        assert(ps.take(j) == ps);
        lemma_pieces_bytes_nonneg(ps);
    }
}

pub proof fn lemma_pieces_bytes_nonneg(ps: Seq<Seq<char>>)
    ensures
        0 <= pieces_bytes(ps),
    decreases ps.len(),
{
    if ps.len() > 0 {
        lemma_pieces_bytes_nonneg(ps.drop_last());
    }
}

pub proof fn lemma_strip_cr_bytes(ps: Seq<Seq<char>>)
    ensures
        pieces_bytes(ps.map_values(|p: Seq<char>| crate::scan::strip_cr(p))) <= pieces_bytes(ps),
    decreases ps.len(),
{
    if ps.len() > 0 {
        lemma_strip_cr_bytes(ps.drop_last());
        let m = ps.map_values(|p: Seq<char>| crate::scan::strip_cr(p));
        assert(m.drop_last() == ps.drop_last().map_values(|p: Seq<char>| crate::scan::strip_cr(p)));
        let l = ps.last();
        if l.len() > 0 && l.last() == '\r' {
            assert(l.drop_last().push(l.last()) == l);
        }
    }
}

/// The lines of a text take no more bytes than the text and one more.
pub proof fn lemma_lines_bytes(s: Seq<char>)
    ensures
        pieces_bytes(crate::scan::lines(s)) <= crate::text::utf8_len(s) + 1,
{
    let parts = crate::text::split_char(s, '\n');
    crate::scan::lemma_split_char_nonempty(s, '\n');
    lemma_split_bytes(s);
    let head = parts.take(parts.len() - 1);
    assert(parts.drop_last() == head);
    lemma_strip_cr_bytes(head);
    let terminated = head.map_values(|p: Seq<char>| crate::scan::strip_cr(p));
    if parts.last().len() != 0 {
        assert(terminated.push(parts.last()).drop_last() == terminated);
    }
}

/// The symbols and templates declared inline in a Python source text: `Symbol(...)` and
/// `Tensor(...)` annotations, and `@render_as(...)` decorators on `def` lines. Each symbol's
/// range is the byte range of its line.
pub fn extract_inline_metadata(source: &str) -> (index: MetadataIndex)
    ensures
        symbols_view(index.symbols@) == inline_spec(source@).0,
        functions_view(index.functions@) == inline_spec(source@).1,
        index@ == inline_view(source@),
{
    let index = extract_inline_entries(source);
    proof {
        lemma_symbol_map_views(index.symbols@);
        lemma_function_map_views(index.functions@);
    }
    index
}

/// The metadata that the inline annotations of `source` give, by name.
pub open spec fn inline_view(source: Seq<char>) -> MetadataView {
    MetadataView {
        symbols: symbol_view_map(inline_spec(source).0),
        functions: function_view_map(inline_spec(source).1),
    }
}

fn extract_inline_entries(source: &str) -> (index: MetadataIndex)
    ensures
        symbols_view(index.symbols@) == inline_spec(source@).0,
        functions_view(index.functions@) == inline_spec(source@).1,
{
    let chars = chars_of(source);
    let total = source.as_bytes().len();
    proof {
        crate::ast::lemma_encode_utf8_len(source@);
    }
    let ls = crate::scan::lines_of(&chars);
    let ghost lv = crate::scan::lines(source@);
    proof {
        assert(ls@.map_values(|l: Vec<char>| l@) =~= lv);
        lemma_lines_bytes(source@);
    }
    let mut index = MetadataIndex::new();
    let mut decorators: Vec<Vec<char>> = Vec::new();
    let mut offset: usize = 0;
    assert(lv.take(0) == Seq::<Seq<char>>::empty());
    assert(pieces_view(decorators@) =~= Seq::<Seq<char>>::empty());
    assert(symbols_view(index.symbols@) =~= Seq::<SymbolMetaView>::empty());
    assert(functions_view(index.functions@) =~= Seq::<FunctionMetaView>::empty());
    proof {
        let (rs, rf) = inline_from(lv, 0, Seq::<Seq<char>>::empty(), 0);
        assert(Seq::<SymbolMetaView>::empty() + rs == rs);
        assert(Seq::<FunctionMetaView>::empty() + rf == rf);
    }
    for j in 0..ls.len()
        invariant
            ls@.len() == lv.len(),
            forall|k: int| 0 <= k < ls@.len() ==> #[trigger] ls@[k]@ == lv[k],
            lv == crate::scan::lines(source@),
            total == crate::text::utf8_len(source@),
            pieces_bytes(lv) <= total + 1,
            j < lv.len() ==> offset == pieces_bytes(lv.take(j as int)),
            inline_spec(source@) == ({
                let (rs, rf) = inline_from(lv, j as int, pieces_view(decorators@), offset as int);
                (symbols_view(index.symbols@) + rs, functions_view(index.functions@) + rf)
            }),
    {
        let line = &ls[j];
        assert(line@ == lv[j as int]);
        proof {
            lemma_pieces_bytes_prefix(lv, j + 1);
            assert(lv.take(j + 1).drop_last() == lv.take(j as int));
            assert(lv.take(j + 1).last() == lv[j as int]);
            assert(pieces_bytes(lv.take(j + 1)) == pieces_bytes(lv.take(j as int))
                + crate::text::utf8_len(lv[j as int]) + 1);
            lemma_pieces_bytes_nonneg(lv.take(j as int));
            assert(line@.take(line@.len() as int) == line@);
        }
        let len = crate::text::utf8_len_of_prefix(line, line.len());
        let end = offset + len;
        let ghost syms = symbols_view(index.symbols@);
        let ghost fnsv = functions_view(index.functions@);
        let ghost decs = pieces_view(decorators@);
        inline_line(&mut index, &mut decorators, line, offset, end);
        proof {
            let (d2, sa, fa) = inline_step(lv[j as int], decs, offset as int);
            let (rs, rf) = inline_from(lv, j + 1, d2, end + 1);
            assert(inline_from(lv, j as int, decs, offset as int) == (sa + rs, fa + rf));
            assert((syms + sa) + rs =~= syms + (sa + rs));
            assert((fnsv + fa) + rf =~= fnsv + (fa + rf));
        }
        if j + 1 < ls.len() {
            proof {
                lemma_pieces_bytes_prefix(lv, j + 2);
                assert(lv.take(j + 2).drop_last() == lv.take(j + 1));
            }
            offset = end + 1;
        } else {
            proof {
                assert(inline_from(lv, j + 1, pieces_view(decorators@), end + 1)
                    == inline_from(lv, j + 1, pieces_view(decorators@), offset as int));
            }
        }
    }
    proof {
        let (rs, rf) = inline_from(lv, ls@.len() as int, pieces_view(decorators@), offset as int);
        assert(symbols_view(index.symbols@) + rs == symbols_view(index.symbols@));
        assert(functions_view(index.functions@) + rf == functions_view(index.functions@));
    }
    index
}

} // verus!
