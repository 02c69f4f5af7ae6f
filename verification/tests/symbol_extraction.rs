//! Symbols of source files in every supported language.
use doctrack::grammar::{Capture, QueryFailure};
use doctrack::symbols::{
    c_queries, cpp_queries, extract_symbols, extract_with_language, go_queries, is_supported,
    java_queries, js_queries, language_for, parse_kind, python_queries, rust_queries, symbols_of,
    ts_queries, ExtractError, SymbolKind, SUPPORTED_EXTENSIONS,
};

fn names(source: &str, ext: &str) -> Vec<String> {
    let (language, queries) = language_for(ext).expect("extension should be supported");
    let mut names: Vec<String> = extract_with_language(language, source, queries)
        .unwrap_or_else(|e| panic!("extraction failed for .{ext}: {}", e.message()))
        .into_iter()
        .map(|s| s.name)
        .collect();
    names.sort();
    names.dedup();
    names
}

#[test]
fn every_language_query_compiles() {
    for ext in SUPPORTED_EXTENSIONS {
        let (language, queries) =
            language_for(ext).unwrap_or_else(|| panic!(".{ext} has no grammar mapping"));
        if let Err(e) = tree_sitter::Query::new(&language, queries) {
            panic!("query for .{ext} does not compile: {e:?}");
        }
    }
}

#[test]
fn extracts_typescript_symbols() {
    let names = names(
        "export interface Shape { area(): number }\n\
         export class Circle implements Shape { area() { return 1 } }\n\
         export abstract class Base {}\n\
         export enum Color { Red }\n\
         export type Alias = string;\n\
         export function build(): void {}\n",
        "ts",
    );
    assert_eq!(
        names,
        vec!["Alias", "Base", "Circle", "Color", "Shape", "build"]
    );
}

#[test]
fn extracts_rust_symbols() {
    let names = names(
        "pub struct Session;\npub enum Mode { A }\npub trait Store {}\n\
         pub fn connect() {}\npub const LIMIT: u8 = 1;\npub mod inner {}\n",
        "rs",
    );
    assert_eq!(
        names,
        vec!["LIMIT", "Mode", "Session", "Store", "connect", "inner"]
    );
}

#[test]
fn extracts_python_symbols() {
    assert_eq!(
        names(
            "class Widget:\n    def method(self): pass\n\ndef build(): pass\n",
            "py"
        ),
        vec!["Widget", "build", "method"]
    );
}

#[test]
fn extracts_javascript_symbols() {
    assert_eq!(
        names("export class Circle {}\nexport function build() {}\n", "js"),
        vec!["Circle", "build"]
    );
}

#[test]
fn extracts_go_symbols() {
    assert_eq!(
        names(
            "package main\n\ntype Store struct{}\n\nfunc Run() {}\n",
            "go"
        ),
        vec!["Run", "Store"]
    );
}

#[test]
fn extracts_java_symbols() {
    assert_eq!(
        names(
            "public class Session { public void open() {} }\n\
             interface Store {}\nenum Mode { A }\n",
            "java"
        ),
        vec!["Mode", "Session", "Store", "open"]
    );
}

#[test]
fn extracts_c_and_cpp_symbols() {
    assert_eq!(
        names(
            "struct Node {};\nenum Mode { A };\nint run(void) { return 0; }\n",
            "c"
        ),
        vec!["Mode", "Node", "run"]
    );
    assert_eq!(
        names(
            "class Session {};\nstruct Node {};\nint run() { return 0; }\n",
            "cpp"
        ),
        vec!["Node", "Session", "run"]
    );
}

#[test]
fn unsupported_extensions_are_rejected() {
    assert!(!is_supported("notes.md"));
    assert!(!is_supported("Makefile"));
    assert!(is_supported("src/main.rs"));
    assert!(is_supported("src/app.tsx"));
}

#[test]
fn an_extension_is_supported_exactly_where_it_has_a_grammar() {
    for ext in SUPPORTED_EXTENSIONS {
        assert!(is_supported(&format!("src/file.{ext}")));
        assert!(language_for(ext).is_some());
    }
    for ext in ["md", "RS", "", "rss", "json"] {
        assert!(!is_supported(&format!("src/file.{ext}")));
        assert!(language_for(ext).is_none());
    }
    // A hidden file has no extension.
    assert!(!is_supported("src/.rs"));
}

#[test]
fn each_extension_gets_the_query_of_its_language() {
    assert_eq!(language_for("rs").unwrap().1, rust_queries());
    assert_eq!(language_for("py").unwrap().1, python_queries());
    assert_eq!(language_for("jsx").unwrap().1, js_queries());
    assert_eq!(language_for("tsx").unwrap().1, ts_queries());
    assert_eq!(language_for("go").unwrap().1, go_queries());
    assert_eq!(language_for("java").unwrap().1, java_queries());
    assert_eq!(language_for("h").unwrap().1, c_queries());
    assert_eq!(language_for("hpp").unwrap().1, cpp_queries());
    assert!(rust_queries().contains("(function_item name: (identifier) @name"));
    assert!(ts_queries().contains("(class_declaration name: (type_identifier) @name"));
}

#[test]
fn each_extension_gets_its_own_grammar() {
    let rust: tree_sitter::Language = tree_sitter_rust::LANGUAGE.into();
    let python: tree_sitter::Language = tree_sitter_python::LANGUAGE.into();
    let cpp: tree_sitter::Language = tree_sitter_cpp::LANGUAGE.into();
    assert!(language_for("rs").unwrap().0 == rust);
    assert!(language_for("py").unwrap().0 == python);
    assert!(language_for("cc").unwrap().0 == cpp);
    assert!(language_for("c").unwrap().0 != cpp);
}

#[test]
fn a_symbol_has_the_lines_of_its_name() {
    let list = extract_symbols("a.rs", "\n\npub fn run() {\n}\n").unwrap();
    assert_eq!(list.len(), 1);
    assert_eq!(list[0].name, "run");
    assert_eq!(list[0].start_line, 2);
    assert_eq!(list[0].end_line, 2);
    // The whole node is captured as the kind, and no keyword reads like that.
    assert_eq!(list[0].kind, SymbolKind::Function);
}

#[test]
fn text_beyond_ascii_is_kept_in_names() {
    let list = extract_symbols("a.py", "# déjà vu\ndef größe(): pass\n").unwrap();
    assert_eq!(list.len(), 1);
    assert_eq!(list[0].name, "größe");
    assert_eq!(list[0].start_line, 1);
}

#[test]
fn an_unknown_extension_is_an_error() {
    let e = extract_symbols("notes.md", "# Title\n").unwrap_err();
    assert_eq!(e, ExtractError::Unsupported("md".to_string()));
    assert_eq!(e.message(), "unsupported language: md");
    let e = extract_symbols("Makefile", "all:\n").unwrap_err();
    assert_eq!(e, ExtractError::Unsupported(String::new()));
}

#[test]
fn a_query_that_does_not_compile_is_an_error() {
    // The query for one language, with the grammar of another.
    let (language, _) = language_for("rs").unwrap();
    let e = extract_with_language(language, "fn a() {}", go_queries()).unwrap_err();
    assert!(matches!(&e, ExtractError::Failed(QueryFailure::Query(_))));
    assert!(e
        .message()
        .starts_with("doctrack symbol query failed to compile: QueryError"));
}

#[test]
fn failures_are_reported_in_words() {
    let e = ExtractError::Failed(QueryFailure::Parse);
    assert_eq!(e.message(), "failed to parse source");
    let e = ExtractError::Failed(QueryFailure::Language("too old".to_string()));
    assert_eq!(e.message(), "too old");
}

fn capture(name: &str, text: &str, start_row: usize, end_row: usize) -> Capture {
    Capture {
        name: name.to_string(),
        text: text.to_string(),
        start_row,
        end_row,
    }
}

#[test]
fn matches_become_symbols() {
    let matches = vec![
        // A match without a kind is no symbol, nor is one without a name.
        vec![capture("name", "lonely", 1, 1)],
        vec![capture("kind", "fn", 1, 1)],
        vec![],
        // The last capture of each name counts; others do not.
        vec![
            capture("kind", "enum", 0, 9),
            capture("name", "first", 3, 3),
            capture("other", "noise", 5, 5),
            capture("name", "second", 4, 6),
            capture("kind", "struct", 0, 9),
        ],
    ];
    let list = symbols_of(&matches);
    assert_eq!(list.len(), 1);
    assert_eq!(list[0].name, "second");
    assert_eq!(list[0].kind, SymbolKind::Struct);
    assert_eq!(list[0].start_line, 4);
    assert_eq!(list[0].end_line, 6);
}

#[test]
fn keywords_name_kinds() {
    for word in ["fn", "func", "def", "function", "anything else"] {
        assert_eq!(parse_kind(word), SymbolKind::Function);
    }
    assert_eq!(parse_kind("class"), SymbolKind::Class);
    assert_eq!(parse_kind("struct"), SymbolKind::Struct);
    assert_eq!(parse_kind("enum"), SymbolKind::Enum);
    assert_eq!(parse_kind("interface"), SymbolKind::Interface);
    assert_eq!(parse_kind("trait"), SymbolKind::Interface);
    assert_eq!(parse_kind("mod"), SymbolKind::Module);
    assert_eq!(parse_kind("module"), SymbolKind::Module);
    assert_eq!(parse_kind("package"), SymbolKind::Module);
    assert_eq!(parse_kind("const"), SymbolKind::Constant);
    assert_eq!(parse_kind("static"), SymbolKind::Constant);
}

#[test]
fn kinds_have_labels() {
    let labels: Vec<&str> = vec![
        SymbolKind::Function.label(),
        SymbolKind::Class.label(),
        SymbolKind::Struct.label(),
        SymbolKind::Enum.label(),
        SymbolKind::Interface.label(),
        SymbolKind::Module.label(),
        SymbolKind::Constant.label(),
        SymbolKind::Method.label(),
    ];
    assert_eq!(
        labels,
        vec!["function", "class", "struct", "enum", "interface", "module", "constant", "method"]
    );
}
