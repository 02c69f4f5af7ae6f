//! Source files seen through the `tree-sitter` crate: grammars, and what a query finds in a text.
use streaming_iterator::StreamingIterator;
use crate::symbols;
use vstd::prelude::*;
use vstd::string::*;

verus! {

/// The grammars that source files are read by.
#[derive(Debug, Clone, Copy, PartialEq, Eq, Structural)]
pub enum Grammar {
    Rust,
    Python,
    JavaScript,
    TypeScript,
    Go,
    Java,
    C,
    Cpp,
}

/// A grammar, as the `tree-sitter` crate holds it.
#[verifier::external_type_specification]
#[verifier::external_body]
pub struct ExLanguage(tree_sitter::Language);

/// A node that a query captured: the name it was captured under, its text, and the rows of the
/// source, counted from zero, in which it begins and ends.
#[derive(Debug, PartialEq, Eq)]
pub struct Capture {
    pub name: String,
    pub text: String,
    pub start_row: usize,
    pub end_row: usize,
}

/// The contents of a [`Capture`].
#[verifier::ext_equal]
pub struct CaptureView {
    pub name: Seq<char>,
    pub text: Seq<char>,
    pub start_row: usize,
    pub end_row: usize,
}

impl DeepView for Capture {
    type V = CaptureView;

    open spec fn deep_view(&self) -> CaptureView {
        CaptureView {
            name: self.name@,
            text: self.text@,
            start_row: self.start_row,
            end_row: self.end_row,
        }
    }
}

/// Why a query could not be run.
#[derive(Debug, PartialEq, Eq)]
pub enum QueryFailure {
    /// The parser does not take the grammar.
    Language(String),
    /// The parser gave no tree.
    Parse,
    /// The query does not compile for the grammar.
    Query(String),
}

/// The contents of a [`QueryFailure`].
#[verifier::ext_equal]
pub enum FailureView {
    Language(Seq<char>),
    Parse,
    Query(Seq<char>),
}

impl DeepView for QueryFailure {
    type V = FailureView;

    open spec fn deep_view(&self) -> FailureView {
        match self {
            QueryFailure::Language(message) => FailureView::Language(message@),
            QueryFailure::Parse => FailureView::Parse,
            QueryFailure::Query(message) => FailureView::Query(message@),
        }
    }
}

/// The language that a grammar crate defines.
pub uninterp spec fn language_of(grammar: Grammar) -> tree_sitter::Language;

/// The syntax tree of a source text.
#[verifier::external_type_specification]
#[verifier::external_body]
pub struct ExTree(tree_sitter::Tree);

/// A compiled query.
#[verifier::external_type_specification]
#[verifier::external_body]
pub struct ExQuery(tree_sitter::Query);

/// The language and the source text that a tree was made from.
pub uninterp spec fn tree_origin(tree: tree_sitter::Tree) -> (tree_sitter::Language, Seq<char>);

/// The language and the text that a query was made from.
pub uninterp spec fn query_origin(query: tree_sitter::Query) -> (tree_sitter::Language, Seq<char>);

/// Why `tree_sitter` gives no tree for a source text, where it gives none.
pub uninterp spec fn parse_failure(language: tree_sitter::Language, source: Seq<char>) -> Option<FailureView>;

/// Why `tree_sitter` does not compile a query, where it does not.
pub uninterp spec fn query_failure(language: tree_sitter::Language, queries: Seq<char>) -> Option<FailureView>;

/// What `tree_sitter` finds where it runs a query on a tree: the captures of each match, in order.
pub uninterp spec fn query_matches(
    tree: tree_sitter::Tree,
    query: tree_sitter::Query,
) -> Seq<Seq<CaptureView>>;

/// The `LANGUAGE` constants of the grammar crates, each turned into a `tree_sitter::Language`. All
/// conversions of one constant give the same language.
#[verifier::external_body]
pub(crate) fn language(grammar: Grammar) -> (r: tree_sitter::Language)
    ensures
        r == language_of(grammar),
{
    match grammar {
        Grammar::Rust => tree_sitter_rust::LANGUAGE.into(),
        Grammar::Python => tree_sitter_python::LANGUAGE.into(),
        Grammar::JavaScript => tree_sitter_javascript::LANGUAGE.into(),
        Grammar::TypeScript => tree_sitter_typescript::LANGUAGE_TYPESCRIPT.into(),
        Grammar::Go => tree_sitter_go::LANGUAGE.into(),
        Grammar::Java => tree_sitter_java::LANGUAGE.into(),
        Grammar::C => tree_sitter_c::LANGUAGE.into(),
        Grammar::Cpp => tree_sitter_cpp::LANGUAGE.into(),
    }
}

/// `Parser::parse` of `tree_sitter`, by a parser that `Parser::set_language` has set to `language`.
/// Whether there is a tree depends on the two arguments alone. Which tree it is may hang on the C
/// library too, whose notion of a letter some grammars use, and is left unsaid but for what it was
/// made from. Offsets into the source are kept in 32 bits, so a longer source is left out.
#[verifier::external_body]
pub(crate) fn parse_source(language: &tree_sitter::Language, source: &str) -> (r: Result<
    tree_sitter::Tree,
    QueryFailure,
>)
    requires
        vstd::utf8::encode_utf8(source@).len() < u32::MAX,
    ensures
        match r {
            Ok(tree) => parse_failure(*language, source@) is None && tree_origin(tree) == (
                *language,
                source@,
            ),
            Err(failure) => parse_failure(*language, source@) == Some(failure.deep_view()),
        },
{
    let mut parser = tree_sitter::Parser::new();
    parser.set_language(language).map_err(|e| QueryFailure::Language(format!("{e}")))?;
    parser.parse(source, None).ok_or(QueryFailure::Parse)
}

/// `Query::new` of `tree_sitter`, for one of the queries of this library. Whether there is a query,
/// and which, depends on the two arguments alone. The compiler does not hold up under every text, so
/// any other query is left out.
#[verifier::external_body]
pub(crate) fn compile_query(language: &tree_sitter::Language, queries: &str) -> (r: Result<
    tree_sitter::Query,
    QueryFailure,
>)
    requires
        exists|g: Grammar| queries@ == #[trigger] symbols::queries_for(g),
    ensures
        match r {
            Ok(query) => query_failure(*language, queries@) is None && query_origin(query) == (
                *language,
                queries@,
            ),
            Err(failure) => query_failure(*language, queries@) == Some(failure.deep_view()),
        },
{
    tree_sitter::Query::new(language, queries).map_err(|e| QueryFailure::Query(format!("{e:?}")))
}

/// `QueryCursor::matches` of `tree_sitter`, on the root of `tree`, with each captured node turned
/// into plain values. What is found depends on the tree and the query alone, where the tree was made
/// from the source that is given; what it is for given ones is left unsaid.
#[verifier::external_body]
pub(crate) fn find_matches(query: &tree_sitter::Query, tree: &tree_sitter::Tree, source: &str) -> (r: Vec<
    Vec<Capture>,
>)
    requires
        tree_origin(*tree) == (query_origin(*query).0, source@),
    ensures
        r.deep_view() == query_matches(*tree, *query),
{
    let capture = |c: &tree_sitter::QueryCapture| Capture {
        name: query.capture_names()[c.index as usize].to_string(),
        text: c.node.utf8_text(source.as_bytes()).unwrap_or_default().to_string(),
        start_row: c.node.start_position().row,
        end_row: c.node.end_position().row,
    };
    let mut cursor = tree_sitter::QueryCursor::new();
    let matches = cursor.matches(query, tree.root_node(), source.as_bytes());
    matches.map_deref(|m| m.captures().iter().map(capture).collect()).collect()
}

} // verus!
