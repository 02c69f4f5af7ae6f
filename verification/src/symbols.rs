//! Symbols of source files.
use crate::gather;
use crate::grammar;
use crate::grammar::{Capture, Grammar, QueryFailure};
use crate::paths;
use crate::text;
use vstd::prelude::*;
use vstd::string::*;

verus! {

/// A symbol that a source file defines.
#[derive(Debug)]
pub struct CodeSymbol {
    pub name: String,
    pub kind: SymbolKind,
    pub start_line: u32,
    pub end_line: u32,
}

#[derive(Debug, Clone, Copy, PartialEq, Eq, Structural)]
pub enum SymbolKind {
    Function,
    Class,
    Struct,
    Enum,
    Interface,
    Module,
    Constant,
    Method,
}

/// The contents of a [`CodeSymbol`].
#[verifier::ext_equal]
pub struct SymbolView {
    pub name: Seq<char>,
    pub kind: SymbolKind,
    pub start_line: u32,
    pub end_line: u32,
}

impl DeepView for CodeSymbol {
    type V = SymbolView;

    open spec fn deep_view(&self) -> SymbolView {
        SymbolView {
            name: self.name@,
            kind: self.kind,
            start_line: self.start_line,
            end_line: self.end_line,
        }
    }
}

impl Clone for CodeSymbol {
    fn clone(&self) -> (r: Self)
        ensures
            r.deep_view() == self.deep_view(),
    {
        CodeSymbol {
            name: self.name.clone(),
            kind: self.kind,
            start_line: self.start_line,
            end_line: self.end_line,
        }
    }
}

/// The word that stands for a kind in a report.
pub open spec fn kind_word(kind: SymbolKind) -> Seq<char> {
    match kind {
        SymbolKind::Function => "function"@,
        SymbolKind::Class => "class"@,
        SymbolKind::Struct => "struct"@,
        SymbolKind::Enum => "enum"@,
        SymbolKind::Interface => "interface"@,
        SymbolKind::Module => "module"@,
        SymbolKind::Constant => "constant"@,
        SymbolKind::Method => "method"@,
    }
}

impl SymbolKind {
    /// The word that stands for the kind in a report.
    pub fn label(&self) -> (r: &'static str)
        ensures
            r@ == (match *self {
                SymbolKind::Function => "function"@,
                SymbolKind::Class => "class"@,
                SymbolKind::Struct => "struct"@,
                SymbolKind::Enum => "enum"@,
                SymbolKind::Interface => "interface"@,
                SymbolKind::Module => "module"@,
                SymbolKind::Constant => "constant"@,
                SymbolKind::Method => "method"@,
            }),
            r@ == kind_word(*self),
    {
        match self {
            SymbolKind::Function => "function",
            SymbolKind::Class => "class",
            SymbolKind::Struct => "struct",
            SymbolKind::Enum => "enum",
            SymbolKind::Interface => "interface",
            SymbolKind::Module => "module",
            SymbolKind::Constant => "constant",
            SymbolKind::Method => "method",
        }
    }
}

/// Every file extension that symbols can be extracted from.
pub const SUPPORTED_EXTENSIONS: [&'static str; 14] = [
    "rs", "py", "js", "jsx", "ts", "tsx", "go", "java", "c", "h", "cpp", "cc", "cxx", "hpp",
];

/// The query for the symbols of a file, by its grammar.
pub open spec fn queries_for(grammar: Grammar) -> Seq<char> {
    match grammar {
        Grammar::Rust => r#"
    (function_item name: (identifier) @name (#set! kind "fn")) @kind
    (struct_item name: (type_identifier) @name (#set! kind "struct")) @kind
    (enum_item name: (type_identifier) @name (#set! kind "enum")) @kind
    (trait_item name: (type_identifier) @name (#set! kind "trait")) @kind
    (impl_item trait: (type_identifier) @name (#set! kind "trait")) @kind
    (mod_item name: (identifier) @name (#set! kind "mod")) @kind
    (const_item name: (identifier) @name (#set! kind "const")) @kind
    "#@,
        Grammar::Python => r#"
    (function_definition name: (identifier) @name (#set! kind "def")) @kind
    (class_definition name: (identifier) @name (#set! kind "class")) @kind
    "#@,
        Grammar::JavaScript => r#"
    (function_declaration name: (identifier) @name (#set! kind "function")) @kind
    (class_declaration name: (identifier) @name (#set! kind "class")) @kind
    (variable_declarator name: (identifier) @name value: (arrow_function)) @kind
    "#@,
        Grammar::TypeScript => r#"
    (function_declaration name: (identifier) @name (#set! kind "function")) @kind
    (class_declaration name: (type_identifier) @name (#set! kind "class")) @kind
    (abstract_class_declaration name: (type_identifier) @name (#set! kind "class")) @kind
    (interface_declaration name: (type_identifier) @name (#set! kind "interface")) @kind
    (enum_declaration name: (identifier) @name (#set! kind "enum")) @kind
    (type_alias_declaration name: (type_identifier) @name (#set! kind "interface")) @kind
    "#@,
        Grammar::Go => r#"
    (function_declaration name: (identifier) @name (#set! kind "func")) @kind
    (method_declaration name: (field_identifier) @name (#set! kind "func")) @kind
    (type_declaration (type_spec name: (type_identifier) @name (#set! kind "struct"))) @kind
    "#@,
        Grammar::Java => r#"
    (method_declaration name: (identifier) @name (#set! kind "function")) @kind
    (class_declaration name: (identifier) @name (#set! kind "class")) @kind
    (interface_declaration name: (identifier) @name (#set! kind "interface")) @kind
    (enum_declaration name: (identifier) @name (#set! kind "enum")) @kind
    "#@,
        Grammar::C => r#"
    (function_definition declarator: (function_declarator declarator: (identifier) @name) (#set! kind "function")) @kind
    (struct_specifier name: (type_identifier) @name (#set! kind "struct")) @kind
    (enum_specifier name: (type_identifier) @name (#set! kind "enum")) @kind
    "#@,
        Grammar::Cpp => r#"
    (function_definition declarator: (function_declarator declarator: (qualified_identifier) @name) (#set! kind "function")) @kind
    (function_definition declarator: (function_declarator declarator: (identifier) @name) (#set! kind "function")) @kind
    (class_specifier name: (type_identifier) @name (#set! kind "class")) @kind
    (struct_specifier name: (type_identifier) @name (#set! kind "struct")) @kind
    (enum_specifier name: (type_identifier) @name (#set! kind "enum")) @kind
    "#@,
    }
}

/// The query for the symbols of a Rust file.
pub fn rust_queries() -> (r: &'static str)
    ensures
        r@ == queries_for(Grammar::Rust),
{
    r#"
    (function_item name: (identifier) @name (#set! kind "fn")) @kind
    (struct_item name: (type_identifier) @name (#set! kind "struct")) @kind
    (enum_item name: (type_identifier) @name (#set! kind "enum")) @kind
    (trait_item name: (type_identifier) @name (#set! kind "trait")) @kind
    (impl_item trait: (type_identifier) @name (#set! kind "trait")) @kind
    (mod_item name: (identifier) @name (#set! kind "mod")) @kind
    (const_item name: (identifier) @name (#set! kind "const")) @kind
    "#
}

/// The query for the symbols of a Python file.
pub fn python_queries() -> (r: &'static str)
    ensures
        r@ == queries_for(Grammar::Python),
{
    r#"
    (function_definition name: (identifier) @name (#set! kind "def")) @kind
    (class_definition name: (identifier) @name (#set! kind "class")) @kind
    "#
}

/// The query for the symbols of a JavaScript file.
pub fn js_queries() -> (r: &'static str)
    ensures
        r@ == queries_for(Grammar::JavaScript),
{
    r#"
    (function_declaration name: (identifier) @name (#set! kind "function")) @kind
    (class_declaration name: (identifier) @name (#set! kind "class")) @kind
    (variable_declarator name: (identifier) @name value: (arrow_function)) @kind
    "#
}

/// The query for the symbols of a TypeScript file.
///
/// In the TypeScript grammar a class name is a `type_identifier`, not an `identifier` as it is in
/// JavaScript. A wrong node type makes the whole query fail to compile.
pub fn ts_queries() -> (r: &'static str)
    ensures
        r@ == queries_for(Grammar::TypeScript),
{
    r#"
    (function_declaration name: (identifier) @name (#set! kind "function")) @kind
    (class_declaration name: (type_identifier) @name (#set! kind "class")) @kind
    (abstract_class_declaration name: (type_identifier) @name (#set! kind "class")) @kind
    (interface_declaration name: (type_identifier) @name (#set! kind "interface")) @kind
    (enum_declaration name: (identifier) @name (#set! kind "enum")) @kind
    (type_alias_declaration name: (type_identifier) @name (#set! kind "interface")) @kind
    "#
}

/// The query for the symbols of a Go file.
pub fn go_queries() -> (r: &'static str)
    ensures
        r@ == queries_for(Grammar::Go),
{
    r#"
    (function_declaration name: (identifier) @name (#set! kind "func")) @kind
    (method_declaration name: (field_identifier) @name (#set! kind "func")) @kind
    (type_declaration (type_spec name: (type_identifier) @name (#set! kind "struct"))) @kind
    "#
}

/// The query for the symbols of a Java file.
pub fn java_queries() -> (r: &'static str)
    ensures
        r@ == queries_for(Grammar::Java),
{
    r#"
    (method_declaration name: (identifier) @name (#set! kind "function")) @kind
    (class_declaration name: (identifier) @name (#set! kind "class")) @kind
    (interface_declaration name: (identifier) @name (#set! kind "interface")) @kind
    (enum_declaration name: (identifier) @name (#set! kind "enum")) @kind
    "#
}

/// The query for the symbols of a C file.
pub fn c_queries() -> (r: &'static str)
    ensures
        r@ == queries_for(Grammar::C),
{
    r#"
    (function_definition declarator: (function_declarator declarator: (identifier) @name) (#set! kind "function")) @kind
    (struct_specifier name: (type_identifier) @name (#set! kind "struct")) @kind
    (enum_specifier name: (type_identifier) @name (#set! kind "enum")) @kind
    "#
}

/// The query for the symbols of a C++ file.
pub fn cpp_queries() -> (r: &'static str)
    ensures
        r@ == queries_for(Grammar::Cpp),
{
    r#"
    (function_definition declarator: (function_declarator declarator: (qualified_identifier) @name) (#set! kind "function")) @kind
    (function_definition declarator: (function_declarator declarator: (identifier) @name) (#set! kind "function")) @kind
    (class_specifier name: (type_identifier) @name (#set! kind "class")) @kind
    (struct_specifier name: (type_identifier) @name (#set! kind "struct")) @kind
    (enum_specifier name: (type_identifier) @name (#set! kind "enum")) @kind
    "#
}

/// The grammar that a file with the extension `ext` is read by.
pub open spec fn grammar_for(ext: Seq<char>) -> Option<Grammar> {
    if ext == "rs"@ {
        Some(Grammar::Rust)
    } else if ext == "py"@ {
        Some(Grammar::Python)
    } else if ext == "js"@ || ext == "jsx"@ {
        Some(Grammar::JavaScript)
    } else if ext == "ts"@ || ext == "tsx"@ {
        Some(Grammar::TypeScript)
    } else if ext == "go"@ {
        Some(Grammar::Go)
    } else if ext == "java"@ {
        Some(Grammar::Java)
    } else if ext == "c"@ || ext == "h"@ {
        Some(Grammar::C)
    } else if ext == "cpp"@ || ext == "cc"@ || ext == "cxx"@ || ext == "hpp"@ {
        Some(Grammar::Cpp)
    } else {
        None
    }
}

/// One of the supported extensions.
pub open spec fn is_listed(ext: Seq<char>) -> bool {
    exists|i: int| 0 <= i < 14 && (#[trigger] SUPPORTED_EXTENSIONS@[i])@ == ext
}

/// The path has one of the supported extensions.
pub open spec fn supported(path: Seq<char>) -> bool {
    match paths::extension_of(path) {
        Some(ext) => is_listed(ext),
        None => false,
    }
}

/// An extension is supported where there is a grammar for it, and only there.
pub proof fn law_supported_has_grammar(ext: Seq<char>)
    ensures
        is_listed(ext) <==> grammar_for(ext) is Some,
{
    let all = SUPPORTED_EXTENSIONS@;
    assert(all[0]@ == "rs"@ && all[1]@ == "py"@ && all[2]@ == "js"@ && all[3]@ == "jsx"@);
    assert(all[4]@ == "ts"@ && all[5]@ == "tsx"@ && all[6]@ == "go"@ && all[7]@ == "java"@);
    assert(all[8]@ == "c"@ && all[9]@ == "h"@ && all[10]@ == "cpp"@ && all[11]@ == "cc"@);
    assert(all[12]@ == "cxx"@ && all[13]@ == "hpp"@);
}

/// Whether [`extract_symbols`] knows how to parse this path.
pub fn is_supported(path: &str) -> (r: bool)
    ensures
        r == supported(path@),
        r == (match paths::extension_of(path@) {
            Some(ext) => grammar_for(ext) is Some,
            None => false,
        }),
{
    proof {
        if let Some(ext) = paths::extension_of(path@) {
            law_supported_has_grammar(ext);
        }
    }
    match paths::extension(path) {
        Some(ext) => {
            for i in 0..14usize
                invariant
                    paths::extension_of(path@) == Some(ext@),
                    is_listed(ext@) <==> grammar_for(ext@) is Some,
                    forall|k: int| 0 <= k < i ==> (#[trigger] SUPPORTED_EXTENSIONS@[k])@ != ext@,
            {
                assert(SUPPORTED_EXTENSIONS@[i as int]@ == SUPPORTED_EXTENSIONS[i as int]@);
                if text::same(SUPPORTED_EXTENSIONS[i], ext.as_str()) {
                    return true;
                }
            }
            false
        },
        None => false,
    }
}

/// The grammar and the symbol query for a file extension.
pub fn language_for(ext: &str) -> (r: Option<(tree_sitter::Language, &'static str)>)
    ensures
        match r {
            Some((language, queries)) => grammar_for(ext@) matches Some(g) && language
                == grammar::language_of(g) && queries@ == queries_for(g),
            None => grammar_for(ext@) is None,
        },
{
    if text::same(ext, "rs") {
        Some((grammar::language(Grammar::Rust), rust_queries()))
    } else if text::same(ext, "py") {
        Some((grammar::language(Grammar::Python), python_queries()))
    } else if text::same(ext, "js") || text::same(ext, "jsx") {
        Some((grammar::language(Grammar::JavaScript), js_queries()))
    } else if text::same(ext, "ts") || text::same(ext, "tsx") {
        Some((grammar::language(Grammar::TypeScript), ts_queries()))
    } else if text::same(ext, "go") {
        Some((grammar::language(Grammar::Go), go_queries()))
    } else if text::same(ext, "java") {
        Some((grammar::language(Grammar::Java), java_queries()))
    } else if text::same(ext, "c") || text::same(ext, "h") {
        Some((grammar::language(Grammar::C), c_queries()))
    } else if text::same(ext, "cpp") || text::same(ext, "cc") || text::same(ext, "cxx") || text::same(
        ext,
        "hpp",
    ) {
        Some((grammar::language(Grammar::Cpp), cpp_queries()))
    } else {
        None
    }
}

/// The kind that a keyword introduces.
pub open spec fn kind_of(word: Seq<char>) -> SymbolKind {
    if word == "class"@ {
        SymbolKind::Class
    } else if word == "struct"@ {
        SymbolKind::Struct
    } else if word == "enum"@ {
        SymbolKind::Enum
    } else if word == "interface"@ || word == "trait"@ {
        SymbolKind::Interface
    } else if word == "mod"@ || word == "module"@ || word == "package"@ {
        SymbolKind::Module
    } else if word == "const"@ || word == "static"@ {
        SymbolKind::Constant
    } else {
        SymbolKind::Function
    }
}

/// The kind that a keyword introduces. What is no keyword counts as a function.
pub fn parse_kind(word: &str) -> (r: SymbolKind)
    ensures
        r == kind_of(word@),
{
    if text::same(word, "class") {
        SymbolKind::Class
    } else if text::same(word, "struct") {
        SymbolKind::Struct
    } else if text::same(word, "enum") {
        SymbolKind::Enum
    } else if text::same(word, "interface") || text::same(word, "trait") {
        SymbolKind::Interface
    } else if text::same(word, "mod") || text::same(word, "module") || text::same(word, "package") {
        SymbolKind::Module
    } else if text::same(word, "const") || text::same(word, "static") {
        SymbolKind::Constant
    } else {
        SymbolKind::Function
    }
}

/// The last of the captures made under `name`.
pub open spec fn last_under(captures: Seq<grammar::CaptureView>, name: Seq<char>) -> Option<
    grammar::CaptureView,
>
    decreases captures.len(),
{
    if captures.len() == 0 {
        None
    } else if captures.last().name == name {
        Some(captures.last())
    } else {
        last_under(captures.drop_last(), name)
    }
}

/// The symbol that a match stands for: the node captured as its name says what it is called and
/// which lines it is on, the node captured as its kind what it is. Nothing where one is missing.
pub open spec fn match_symbols() -> spec_fn(Seq<grammar::CaptureView>) -> Seq<SymbolView> {
    |captures: Seq<grammar::CaptureView>|
        match (last_under(captures, "name"@), last_under(captures, "kind"@)) {
            (Some(name), Some(kind)) => seq![
                SymbolView {
                    name: name.text,
                    kind: kind_of(kind.text),
                    start_line: name.start_row as u32,
                    end_line: name.end_row as u32,
                },
            ],
            _ => seq![],
        }
}

/// The last of the captures made under `name`.
fn find_last<'a>(captures: &'a Vec<Capture>, name: &str) -> (r: Option<&'a Capture>)
    ensures
        match r {
            Some(c) => last_under(captures.deep_view(), name@) == Some(c.deep_view()),
            None => last_under(captures.deep_view(), name@) is None,
        },
{
    let ghost all = captures.deep_view();
    let mut n: usize = captures.len();
    assert(all.take(n as int) =~= all);
    while n > 0
        invariant
            n <= captures@.len(),
            all == captures.deep_view(),
            last_under(all, name@) == last_under(all.take(n as int), name@),
        decreases n,
    {
        n = n - 1;
        assert(all.take(n + 1).last() == captures@[n as int].deep_view());
        assert(all.take(n + 1).drop_last() =~= all.take(n as int));
        if text::same(captures[n].name.as_str(), name) {
            return Some(&captures[n]);
        }
    }
    None
}

/// The symbols that the matches of a query stand for.
pub fn symbols_of(matches: &Vec<Vec<Capture>>) -> (r: Vec<CodeSymbol>)
    ensures
        r.deep_view() == gather::gather(matches.deep_view(), match_symbols()),
{
    let ghost all = matches.deep_view();
    let mut out: Vec<CodeSymbol> = Vec::new();
    let n: usize = matches.len();
    assert(out.deep_view() =~= gather::gather(all.take(0), match_symbols()));
    for i in 0..n
        invariant
            n == matches@.len(),
            all == matches.deep_view(),
            out.deep_view() == gather::gather(all.take(i as int), match_symbols()),
    {
        let ghost before = out.deep_view();
        proof {
            assert(all[i as int] == matches@[i as int].deep_view());
            gather::lemma_gather_step(all, match_symbols(), i as int);
        }
        if let (Some(name), Some(kind)) = (find_last(&matches[i], "name"), find_last(&matches[i], "kind")) {
            let symbol = CodeSymbol {
                name: name.text.clone(),
                kind: parse_kind(kind.text.as_str()),
                start_line: name.start_row as u32,
                end_line: name.end_row as u32,
            };
            out.push(symbol);
            assert(out.deep_view() =~= before + match_symbols()(all[i as int]));
        } else {
            assert(match_symbols()(all[i as int]) =~= seq![]);
            assert(out.deep_view() =~= before + match_symbols()(all[i as int]));
        }
    }
    assert(all.take(n as int) =~= all);
    out
}

/// Why no symbols could be extracted.
#[derive(Debug, PartialEq, Eq)]
pub enum ExtractError {
    /// There is no grammar for files with this extension.
    Unsupported(String),
    /// The file could not be parsed or queried.
    Failed(QueryFailure),
}

/// The contents of an [`ExtractError`].
#[verifier::ext_equal]
pub enum ExtractErrorView {
    Unsupported(Seq<char>),
    Failed(grammar::FailureView),
}

impl DeepView for ExtractError {
    type V = ExtractErrorView;

    open spec fn deep_view(&self) -> ExtractErrorView {
        match self {
            ExtractError::Unsupported(ext) => ExtractErrorView::Unsupported(ext@),
            ExtractError::Failed(failure) => ExtractErrorView::Failed(failure.deep_view()),
        }
    }
}

/// What an error is reported as.
pub open spec fn error_text(e: ExtractErrorView) -> Seq<char> {
    match e {
        ExtractErrorView::Unsupported(ext) => "unsupported language: "@ + ext,
        ExtractErrorView::Failed(grammar::FailureView::Language(message)) => message,
        ExtractErrorView::Failed(grammar::FailureView::Parse) => "failed to parse source"@,
        ExtractErrorView::Failed(grammar::FailureView::Query(message)) =>
            "doctrack symbol query failed to compile: "@ + message,
    }
}

impl ExtractError {
    /// What the error is reported as.
    pub fn message(&self) -> (r: String)
        ensures
            r@ == error_text(self.deep_view()),
    {
        match self {
            ExtractError::Unsupported(ext) => {
                let mut out = "unsupported language: ".to_string();
                out.append(ext.as_str());
                out
            },
            ExtractError::Failed(QueryFailure::Language(message)) => message.clone(),
            ExtractError::Failed(QueryFailure::Parse) => "failed to parse source".to_string(),
            ExtractError::Failed(QueryFailure::Query(message)) => {
                let mut out = "doctrack symbol query failed to compile: ".to_string();
                out.append(message.as_str());
                out
            },
        }
    }
}

/// Why no symbols are found in `source` with `queries`, where none are.
pub open spec fn refused_with(
    language: tree_sitter::Language,
    source: Seq<char>,
    queries: Seq<char>,
) -> Option<ExtractErrorView> {
    match grammar::parse_failure(language, source) {
        Some(failure) => Some(ExtractErrorView::Failed(failure)),
        None => match grammar::query_failure(language, queries) {
            Some(failure) => Some(ExtractErrorView::Failed(failure)),
            None => None,
        },
    }
}

/// `list` is what the matches of `queries` on a tree of `source` stand for.
pub open spec fn yields_with(
    language: tree_sitter::Language,
    source: Seq<char>,
    queries: Seq<char>,
    list: Seq<SymbolView>,
) -> bool {
    exists|tree: tree_sitter::Tree, query: tree_sitter::Query|
        {
            &&& grammar::tree_origin(tree) == (language, source)
            &&& grammar::query_origin(query) == (language, queries)
            &&& list == gather::gather(#[trigger] grammar::query_matches(tree, query), match_symbols())
        }
}

/// The extension of a path, or nothing where it has none.
pub open spec fn extension_text(path: Seq<char>) -> Seq<char> {
    match paths::extension_of(path) {
        Some(ext) => ext,
        None => ""@,
    }
}

/// Why no symbols are extracted from the file at `path` that holds `source`, where none are.
pub open spec fn refused(path: Seq<char>, source: Seq<char>) -> Option<ExtractErrorView> {
    match grammar_for(extension_text(path)) {
        Some(g) => refused_with(grammar::language_of(g), source, queries_for(g)),
        None => Some(ExtractErrorView::Unsupported(extension_text(path))),
    }
}

/// `list` is what is extracted from the file at `path` that holds `source`.
pub open spec fn yields(path: Seq<char>, source: Seq<char>, list: Seq<SymbolView>) -> bool {
    grammar_for(extension_text(path)) matches Some(g) && yields_with(
        grammar::language_of(g),
        source,
        queries_for(g),
        list,
    )
}

/// A file without an extension has no grammar.
proof fn lemma_no_empty_extension()
    ensures
        grammar_for(""@) is None,
{
    reveal_strlit("");
    reveal_strlit("rs");
    reveal_strlit("py");
    reveal_strlit("js");
    reveal_strlit("jsx");
    reveal_strlit("ts");
    reveal_strlit("tsx");
    reveal_strlit("go");
    reveal_strlit("java");
    reveal_strlit("c");
    reveal_strlit("h");
    reveal_strlit("cpp");
    reveal_strlit("cc");
    reveal_strlit("cxx");
    reveal_strlit("hpp");
    assert(""@.len() == 0);
}

/// A file of an unsupported language is refused whatever it says, and the extension is named; a file
/// of a supported one is parsed with the grammar and the query of its extension.
pub proof fn law_extracts_supported(path: Seq<char>, source: Seq<char>, list: Seq<SymbolView>)
    ensures
        !supported(path) ==> refused(path, source) == Some(
            ExtractErrorView::Unsupported(extension_text(path)),
        ) && !yields(path, source, list),
        supported(path) ==> (grammar_for(extension_text(path)) matches Some(g) && refused(path, source)
            == refused_with(grammar::language_of(g), source, queries_for(g)) && yields(path, source, list)
            == yields_with(grammar::language_of(g), source, queries_for(g), list)),
{
    law_supported_has_grammar(extension_text(path));
    if paths::extension_of(path) is None {
        lemma_no_empty_extension();
    }
}

/// Parse `source` and turn what the query finds into symbols.
pub fn extract_with_language(language: tree_sitter::Language, source: &str, queries: &str) -> (r: Result<
    Vec<CodeSymbol>,
    ExtractError,
>)
    requires
        vstd::utf8::encode_utf8(source@).len() < u32::MAX,
        exists|g: Grammar| queries@ == #[trigger] queries_for(g),
    ensures
        match r {
            Ok(list) => refused_with(language, source@, queries@) is None && yields_with(
                language,
                source@,
                queries@,
                list.deep_view(),
            ),
            Err(e) => refused_with(language, source@, queries@) == Some(e.deep_view()),
        },
{
    let tree = match grammar::parse_source(&language, source) {
        Ok(tree) => tree,
        Err(failure) => {
            return Err(ExtractError::Failed(failure));
        },
    };
    // A query that does not compile is a mistake in this program, not a property of the source:
    // it is reported rather than taken for a file without symbols.
    match grammar::compile_query(&language, queries) {
        Ok(query) => {
            let found = grammar::find_matches(&query, &tree, source);
            assert(found.deep_view() == grammar::query_matches(tree, query));
            Ok(symbols_of(&found))
        },
        Err(failure) => Err(ExtractError::Failed(failure)),
    }
}

/// Determine the language from the file extension and extract the symbols of `source`.
pub fn extract_symbols(path: &str, source: &str) -> (r: Result<Vec<CodeSymbol>, ExtractError>)
    requires
        supported(path@) ==> vstd::utf8::encode_utf8(source@).len() < u32::MAX,
    ensures
        match r {
            Ok(list) => refused(path@, source@) is None && yields(path@, source@, list.deep_view()),
            Err(e) => refused(path@, source@) == Some(e.deep_view()),
        },
{
    proof {
        law_extracts_supported(path@, source@, Seq::empty());
    }
    let ext = match paths::extension(path) {
        Some(ext) => ext,
        None => "".to_string(),
    };
    assert(ext@ == extension_text(path@));
    match language_for(ext.as_str()) {
        Some((language, queries)) => extract_with_language(language, source, queries),
        None => Err(ExtractError::Unsupported(ext)),
    }
}

} // verus!
