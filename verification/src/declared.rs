//! Which declarations of a language are symbols, and which symbol a match stands for.
use crate::gather;
use crate::grammar;
use crate::grammar::Grammar;
use crate::paths;
use crate::symbols;
use crate::symbols::SymbolKind;
use crate::text;
use vstd::prelude::*;

verus! {

/// The extensions of the files of a language.
pub open spec fn extensions(g: Grammar) -> Seq<Seq<char>> {
    match g {
        Grammar::Rust => seq!["rs"@],
        Grammar::Python => seq!["py"@],
        Grammar::JavaScript => seq!["js"@, "jsx"@],
        Grammar::TypeScript => seq!["ts"@, "tsx"@],
        Grammar::Go => seq!["go"@],
        Grammar::Java => seq!["java"@],
        Grammar::C => seq!["c"@, "h"@],
        Grammar::Cpp => seq!["cpp"@, "cc"@, "cxx"@, "hpp"@],
    }
}

/// The declarations of a language whose names are symbols: for each, the node of the declaration and
/// the node of its name inside it.
pub open spec fn declarations(g: Grammar) -> Seq<Seq<char>> {
    match g {
        Grammar::Rust => seq![
            "(function_item name: (identifier) @name"@,
            "(struct_item name: (type_identifier) @name"@,
            "(enum_item name: (type_identifier) @name"@,
            "(trait_item name: (type_identifier) @name"@,
            "(impl_item trait: (type_identifier) @name"@,
            "(mod_item name: (identifier) @name"@,
            "(const_item name: (identifier) @name"@,
        ],
        Grammar::Python => seq![
            "(function_definition name: (identifier) @name"@,
            "(class_definition name: (identifier) @name"@,
        ],
        Grammar::JavaScript => seq![
            "(function_declaration name: (identifier) @name"@,
            "(class_declaration name: (identifier) @name"@,
            "(variable_declarator name: (identifier) @name"@,
        ],
        Grammar::TypeScript => seq![
            "(function_declaration name: (identifier) @name"@,
            "(class_declaration name: (type_identifier) @name"@,
            "(abstract_class_declaration name: (type_identifier) @name"@,
            "(interface_declaration name: (type_identifier) @name"@,
            "(enum_declaration name: (identifier) @name"@,
            "(type_alias_declaration name: (type_identifier) @name"@,
        ],
        Grammar::Go => seq![
            "(function_declaration name: (identifier) @name"@,
            "(method_declaration name: (field_identifier) @name"@,
            "(type_declaration (type_spec name: (type_identifier) @name"@,
        ],
        Grammar::Java => seq![
            "(method_declaration name: (identifier) @name"@,
            "(class_declaration name: (identifier) @name"@,
            "(interface_declaration name: (identifier) @name"@,
            "(enum_declaration name: (identifier) @name"@,
        ],
        Grammar::C => seq![
            "(function_definition declarator: (function_declarator declarator: (identifier) @name"@,
            "(struct_specifier name: (type_identifier) @name"@,
            "(enum_specifier name: (type_identifier) @name"@,
        ],
        Grammar::Cpp => seq![
            "(function_definition declarator: (function_declarator declarator: (qualified_identifier) @name"@,
            "(function_definition declarator: (function_declarator declarator: (identifier) @name"@,
            "(class_specifier name: (type_identifier) @name"@,
            "(struct_specifier name: (type_identifier) @name"@,
            "(enum_specifier name: (type_identifier) @name"@,
        ],
    }
}

/// What follows the name in the pattern of each declaration: the kind of symbol that it makes.
pub open spec fn endings(g: Grammar) -> Seq<Seq<char>> {
    match g {
        Grammar::Rust => seq![
            r#" (#set! kind "fn")) @kind"#@,
            r#" (#set! kind "struct")) @kind"#@,
            r#" (#set! kind "enum")) @kind"#@,
            r#" (#set! kind "trait")) @kind"#@,
            r#" (#set! kind "trait")) @kind"#@,
            r#" (#set! kind "mod")) @kind"#@,
            r#" (#set! kind "const")) @kind"#@,
        ],
        Grammar::Python => seq![
            r#" (#set! kind "def")) @kind"#@,
            r#" (#set! kind "class")) @kind"#@,
        ],
        Grammar::JavaScript => seq![
            r#" (#set! kind "function")) @kind"#@,
            r#" (#set! kind "class")) @kind"#@,
            " value: (arrow_function)) @kind"@,
        ],
        Grammar::TypeScript => seq![
            r#" (#set! kind "function")) @kind"#@,
            r#" (#set! kind "class")) @kind"#@,
            r#" (#set! kind "class")) @kind"#@,
            r#" (#set! kind "interface")) @kind"#@,
            r#" (#set! kind "enum")) @kind"#@,
            r#" (#set! kind "interface")) @kind"#@,
        ],
        Grammar::Go => seq![
            r#" (#set! kind "func")) @kind"#@,
            r#" (#set! kind "func")) @kind"#@,
            r#" (#set! kind "struct"))) @kind"#@,
        ],
        Grammar::Java => seq![
            r#" (#set! kind "function")) @kind"#@,
            r#" (#set! kind "class")) @kind"#@,
            r#" (#set! kind "interface")) @kind"#@,
            r#" (#set! kind "enum")) @kind"#@,
        ],
        Grammar::C => seq![
            r#") (#set! kind "function")) @kind"#@,
            r#" (#set! kind "struct")) @kind"#@,
            r#" (#set! kind "enum")) @kind"#@,
        ],
        Grammar::Cpp => seq![
            r#") (#set! kind "function")) @kind"#@,
            r#") (#set! kind "function")) @kind"#@,
            r#" (#set! kind "class")) @kind"#@,
            r#" (#set! kind "struct")) @kind"#@,
            r#" (#set! kind "enum")) @kind"#@,
        ],
    }
}

/// The first `n` patterns, each on a line of its own.
pub open spec fn set_out(g: Grammar, n: nat) -> Seq<char>
    decreases n,
{
    if n == 0 {
        "\n    "@
    } else {
        set_out(g, (n - 1) as nat) + declarations(g)[n - 1] + endings(g)[n - 1] + "\n    "@
    }
}

proof fn lemma_rust()
    ensures
        symbols::queries_for(Grammar::Rust) == set_out(Grammar::Rust, 7),
{
    let g = Grammar::Rust;
    reveal_strlit(r#"
    (function_item name: (identifier) @name (#set! kind "fn")) @kind
    (struct_item name: (type_identifier) @name (#set! kind "struct")) @kind
    (enum_item name: (type_identifier) @name (#set! kind "enum")) @kind
    (trait_item name: (type_identifier) @name (#set! kind "trait")) @kind
    (impl_item trait: (type_identifier) @name (#set! kind "trait")) @kind
    (mod_item name: (identifier) @name (#set! kind "mod")) @kind
    (const_item name: (identifier) @name (#set! kind "const")) @kind
    "#);
    let q = symbols::queries_for(g);
    reveal_strlit("\n    ");
    assert(set_out(g, 0) == "\n    "@);
    assert(q.subrange(0, 5) =~= "\n    "@);
    assert(q.subrange(0, 74) =~= set_out(g, 1)) by {
        reveal_strlit("(function_item name: (identifier) @name");
        reveal_strlit(r#" (#set! kind "fn")) @kind"#);
        assert(q.subrange(5, 44) =~= "(function_item name: (identifier) @name"@);
        assert(q.subrange(44, 69) =~= r#" (#set! kind "fn")) @kind"#@);
        assert(q.subrange(69, 74) =~= "\n    "@);
        lemma_four(q, 5, 44, 69, 74);
    }
    assert(q.subrange(0, 150) =~= set_out(g, 2)) by {
        reveal_strlit("(struct_item name: (type_identifier) @name");
        reveal_strlit(r#" (#set! kind "struct")) @kind"#);
        assert(q.subrange(74, 116) =~= "(struct_item name: (type_identifier) @name"@);
        assert(q.subrange(116, 145) =~= r#" (#set! kind "struct")) @kind"#@);
        assert(q.subrange(145, 150) =~= "\n    "@);
        lemma_four(q, 74, 116, 145, 150);
    }
    assert(q.subrange(0, 222) =~= set_out(g, 3)) by {
        reveal_strlit("(enum_item name: (type_identifier) @name");
        reveal_strlit(r#" (#set! kind "enum")) @kind"#);
        assert(q.subrange(150, 190) =~= "(enum_item name: (type_identifier) @name"@);
        assert(q.subrange(190, 217) =~= r#" (#set! kind "enum")) @kind"#@);
        assert(q.subrange(217, 222) =~= "\n    "@);
        lemma_four(q, 150, 190, 217, 222);
    }
    assert(q.subrange(0, 296) =~= set_out(g, 4)) by {
        reveal_strlit("(trait_item name: (type_identifier) @name");
        reveal_strlit(r#" (#set! kind "trait")) @kind"#);
        assert(q.subrange(222, 263) =~= "(trait_item name: (type_identifier) @name"@);
        assert(q.subrange(263, 291) =~= r#" (#set! kind "trait")) @kind"#@);
        assert(q.subrange(291, 296) =~= "\n    "@);
        lemma_four(q, 222, 263, 291, 296);
    }
    assert(q.subrange(0, 370) =~= set_out(g, 5)) by {
        reveal_strlit("(impl_item trait: (type_identifier) @name");
        reveal_strlit(r#" (#set! kind "trait")) @kind"#);
        assert(q.subrange(296, 337) =~= "(impl_item trait: (type_identifier) @name"@);
        assert(q.subrange(337, 365) =~= r#" (#set! kind "trait")) @kind"#@);
        assert(q.subrange(365, 370) =~= "\n    "@);
        lemma_four(q, 296, 337, 365, 370);
    }
    assert(q.subrange(0, 435) =~= set_out(g, 6)) by {
        reveal_strlit("(mod_item name: (identifier) @name");
        reveal_strlit(r#" (#set! kind "mod")) @kind"#);
        assert(q.subrange(370, 404) =~= "(mod_item name: (identifier) @name"@);
        assert(q.subrange(404, 430) =~= r#" (#set! kind "mod")) @kind"#@);
        assert(q.subrange(430, 435) =~= "\n    "@);
        lemma_four(q, 370, 404, 430, 435);
    }
    assert(q.subrange(0, 504) =~= set_out(g, 7)) by {
        reveal_strlit("(const_item name: (identifier) @name");
        reveal_strlit(r#" (#set! kind "const")) @kind"#);
        assert(q.subrange(435, 471) =~= "(const_item name: (identifier) @name"@);
        assert(q.subrange(471, 499) =~= r#" (#set! kind "const")) @kind"#@);
        assert(q.subrange(499, 504) =~= "\n    "@);
        lemma_four(q, 435, 471, 499, 504);
    }
    assert(q =~= q.subrange(0, 504));
}

proof fn lemma_python()
    ensures
        symbols::queries_for(Grammar::Python) == set_out(Grammar::Python, 2),
{
    let g = Grammar::Python;
    reveal_strlit(r#"
    (function_definition name: (identifier) @name (#set! kind "def")) @kind
    (class_definition name: (identifier) @name (#set! kind "class")) @kind
    "#);
    let q = symbols::queries_for(g);
    reveal_strlit("\n    ");
    assert(set_out(g, 0) == "\n    "@);
    assert(q.subrange(0, 5) =~= "\n    "@);
    assert(q.subrange(0, 81) =~= set_out(g, 1)) by {
        reveal_strlit("(function_definition name: (identifier) @name");
        reveal_strlit(r#" (#set! kind "def")) @kind"#);
        assert(q.subrange(5, 50) =~= "(function_definition name: (identifier) @name"@);
        assert(q.subrange(50, 76) =~= r#" (#set! kind "def")) @kind"#@);
        assert(q.subrange(76, 81) =~= "\n    "@);
        lemma_four(q, 5, 50, 76, 81);
    }
    assert(q.subrange(0, 156) =~= set_out(g, 2)) by {
        reveal_strlit("(class_definition name: (identifier) @name");
        reveal_strlit(r#" (#set! kind "class")) @kind"#);
        assert(q.subrange(81, 123) =~= "(class_definition name: (identifier) @name"@);
        assert(q.subrange(123, 151) =~= r#" (#set! kind "class")) @kind"#@);
        assert(q.subrange(151, 156) =~= "\n    "@);
        lemma_four(q, 81, 123, 151, 156);
    }
    assert(q =~= q.subrange(0, 156));
}

proof fn lemma_javascript()
    ensures
        symbols::queries_for(Grammar::JavaScript) == set_out(Grammar::JavaScript, 3),
{
    let g = Grammar::JavaScript;
    reveal_strlit(r#"
    (function_declaration name: (identifier) @name (#set! kind "function")) @kind
    (class_declaration name: (identifier) @name (#set! kind "class")) @kind
    (variable_declarator name: (identifier) @name value: (arrow_function)) @kind
    "#);
    let q = symbols::queries_for(g);
    reveal_strlit("\n    ");
    assert(set_out(g, 0) == "\n    "@);
    assert(q.subrange(0, 5) =~= "\n    "@);
    assert(q.subrange(0, 87) =~= set_out(g, 1)) by {
        reveal_strlit("(function_declaration name: (identifier) @name");
        reveal_strlit(r#" (#set! kind "function")) @kind"#);
        assert(q.subrange(5, 51) =~= "(function_declaration name: (identifier) @name"@);
        assert(q.subrange(51, 82) =~= r#" (#set! kind "function")) @kind"#@);
        assert(q.subrange(82, 87) =~= "\n    "@);
        lemma_four(q, 5, 51, 82, 87);
    }
    assert(q.subrange(0, 163) =~= set_out(g, 2)) by {
        reveal_strlit("(class_declaration name: (identifier) @name");
        reveal_strlit(r#" (#set! kind "class")) @kind"#);
        assert(q.subrange(87, 130) =~= "(class_declaration name: (identifier) @name"@);
        assert(q.subrange(130, 158) =~= r#" (#set! kind "class")) @kind"#@);
        assert(q.subrange(158, 163) =~= "\n    "@);
        lemma_four(q, 87, 130, 158, 163);
    }
    assert(q.subrange(0, 244) =~= set_out(g, 3)) by {
        reveal_strlit("(variable_declarator name: (identifier) @name");
        reveal_strlit(" value: (arrow_function)) @kind");
        assert(q.subrange(163, 208) =~= "(variable_declarator name: (identifier) @name"@);
        assert(q.subrange(208, 239) =~= " value: (arrow_function)) @kind"@);
        assert(q.subrange(239, 244) =~= "\n    "@);
        lemma_four(q, 163, 208, 239, 244);
    }
    assert(q =~= q.subrange(0, 244));
}

proof fn lemma_typescript()
    ensures
        symbols::queries_for(Grammar::TypeScript) == set_out(Grammar::TypeScript, 6),
{
    let g = Grammar::TypeScript;
    reveal_strlit(r#"
    (function_declaration name: (identifier) @name (#set! kind "function")) @kind
    (class_declaration name: (type_identifier) @name (#set! kind "class")) @kind
    (abstract_class_declaration name: (type_identifier) @name (#set! kind "class")) @kind
    (interface_declaration name: (type_identifier) @name (#set! kind "interface")) @kind
    (enum_declaration name: (identifier) @name (#set! kind "enum")) @kind
    (type_alias_declaration name: (type_identifier) @name (#set! kind "interface")) @kind
    "#);
    let q = symbols::queries_for(g);
    reveal_strlit("\n    ");
    assert(set_out(g, 0) == "\n    "@);
    assert(q.subrange(0, 5) =~= "\n    "@);
    assert(q.subrange(0, 87) =~= set_out(g, 1)) by {
        reveal_strlit("(function_declaration name: (identifier) @name");
        reveal_strlit(r#" (#set! kind "function")) @kind"#);
        assert(q.subrange(5, 51) =~= "(function_declaration name: (identifier) @name"@);
        assert(q.subrange(51, 82) =~= r#" (#set! kind "function")) @kind"#@);
        assert(q.subrange(82, 87) =~= "\n    "@);
        lemma_four(q, 5, 51, 82, 87);
    }
    assert(q.subrange(0, 168) =~= set_out(g, 2)) by {
        reveal_strlit("(class_declaration name: (type_identifier) @name");
        reveal_strlit(r#" (#set! kind "class")) @kind"#);
        assert(q.subrange(87, 135) =~= "(class_declaration name: (type_identifier) @name"@);
        assert(q.subrange(135, 163) =~= r#" (#set! kind "class")) @kind"#@);
        assert(q.subrange(163, 168) =~= "\n    "@);
        lemma_four(q, 87, 135, 163, 168);
    }
    assert(q.subrange(0, 258) =~= set_out(g, 3)) by {
        reveal_strlit("(abstract_class_declaration name: (type_identifier) @name");
        reveal_strlit(r#" (#set! kind "class")) @kind"#);
        assert(q.subrange(168, 225) =~= "(abstract_class_declaration name: (type_identifier) @name"@);
        assert(q.subrange(225, 253) =~= r#" (#set! kind "class")) @kind"#@);
        assert(q.subrange(253, 258) =~= "\n    "@);
        lemma_four(q, 168, 225, 253, 258);
    }
    assert(q.subrange(0, 347) =~= set_out(g, 4)) by {
        reveal_strlit("(interface_declaration name: (type_identifier) @name");
        reveal_strlit(r#" (#set! kind "interface")) @kind"#);
        assert(q.subrange(258, 310) =~= "(interface_declaration name: (type_identifier) @name"@);
        assert(q.subrange(310, 342) =~= r#" (#set! kind "interface")) @kind"#@);
        assert(q.subrange(342, 347) =~= "\n    "@);
        lemma_four(q, 258, 310, 342, 347);
    }
    assert(q.subrange(0, 421) =~= set_out(g, 5)) by {
        reveal_strlit("(enum_declaration name: (identifier) @name");
        reveal_strlit(r#" (#set! kind "enum")) @kind"#);
        assert(q.subrange(347, 389) =~= "(enum_declaration name: (identifier) @name"@);
        assert(q.subrange(389, 416) =~= r#" (#set! kind "enum")) @kind"#@);
        assert(q.subrange(416, 421) =~= "\n    "@);
        lemma_four(q, 347, 389, 416, 421);
    }
    assert(q.subrange(0, 511) =~= set_out(g, 6)) by {
        reveal_strlit("(type_alias_declaration name: (type_identifier) @name");
        reveal_strlit(r#" (#set! kind "interface")) @kind"#);
        assert(q.subrange(421, 474) =~= "(type_alias_declaration name: (type_identifier) @name"@);
        assert(q.subrange(474, 506) =~= r#" (#set! kind "interface")) @kind"#@);
        assert(q.subrange(506, 511) =~= "\n    "@);
        lemma_four(q, 421, 474, 506, 511);
    }
    assert(q =~= q.subrange(0, 511));
}

proof fn lemma_go()
    ensures
        symbols::queries_for(Grammar::Go) == set_out(Grammar::Go, 3),
{
    let g = Grammar::Go;
    reveal_strlit(r#"
    (function_declaration name: (identifier) @name (#set! kind "func")) @kind
    (method_declaration name: (field_identifier) @name (#set! kind "func")) @kind
    (type_declaration (type_spec name: (type_identifier) @name (#set! kind "struct"))) @kind
    "#);
    let q = symbols::queries_for(g);
    reveal_strlit("\n    ");
    assert(set_out(g, 0) == "\n    "@);
    assert(q.subrange(0, 5) =~= "\n    "@);
    assert(q.subrange(0, 83) =~= set_out(g, 1)) by {
        reveal_strlit("(function_declaration name: (identifier) @name");
        reveal_strlit(r#" (#set! kind "func")) @kind"#);
        assert(q.subrange(5, 51) =~= "(function_declaration name: (identifier) @name"@);
        assert(q.subrange(51, 78) =~= r#" (#set! kind "func")) @kind"#@);
        assert(q.subrange(78, 83) =~= "\n    "@);
        lemma_four(q, 5, 51, 78, 83);
    }
    assert(q.subrange(0, 165) =~= set_out(g, 2)) by {
        reveal_strlit("(method_declaration name: (field_identifier) @name");
        reveal_strlit(r#" (#set! kind "func")) @kind"#);
        assert(q.subrange(83, 133) =~= "(method_declaration name: (field_identifier) @name"@);
        assert(q.subrange(133, 160) =~= r#" (#set! kind "func")) @kind"#@);
        assert(q.subrange(160, 165) =~= "\n    "@);
        lemma_four(q, 83, 133, 160, 165);
    }
    assert(q.subrange(0, 258) =~= set_out(g, 3)) by {
        reveal_strlit("(type_declaration (type_spec name: (type_identifier) @name");
        reveal_strlit(r#" (#set! kind "struct"))) @kind"#);
        assert(q.subrange(165, 223) =~= "(type_declaration (type_spec name: (type_identifier) @name"@);
        assert(q.subrange(223, 253) =~= r#" (#set! kind "struct"))) @kind"#@);
        assert(q.subrange(253, 258) =~= "\n    "@);
        lemma_four(q, 165, 223, 253, 258);
    }
    assert(q =~= q.subrange(0, 258));
}

proof fn lemma_java()
    ensures
        symbols::queries_for(Grammar::Java) == set_out(Grammar::Java, 4),
{
    let g = Grammar::Java;
    reveal_strlit(r#"
    (method_declaration name: (identifier) @name (#set! kind "function")) @kind
    (class_declaration name: (identifier) @name (#set! kind "class")) @kind
    (interface_declaration name: (identifier) @name (#set! kind "interface")) @kind
    (enum_declaration name: (identifier) @name (#set! kind "enum")) @kind
    "#);
    let q = symbols::queries_for(g);
    reveal_strlit("\n    ");
    assert(set_out(g, 0) == "\n    "@);
    assert(q.subrange(0, 5) =~= "\n    "@);
    assert(q.subrange(0, 85) =~= set_out(g, 1)) by {
        reveal_strlit("(method_declaration name: (identifier) @name");
        reveal_strlit(r#" (#set! kind "function")) @kind"#);
        assert(q.subrange(5, 49) =~= "(method_declaration name: (identifier) @name"@);
        assert(q.subrange(49, 80) =~= r#" (#set! kind "function")) @kind"#@);
        assert(q.subrange(80, 85) =~= "\n    "@);
        lemma_four(q, 5, 49, 80, 85);
    }
    assert(q.subrange(0, 161) =~= set_out(g, 2)) by {
        reveal_strlit("(class_declaration name: (identifier) @name");
        reveal_strlit(r#" (#set! kind "class")) @kind"#);
        assert(q.subrange(85, 128) =~= "(class_declaration name: (identifier) @name"@);
        assert(q.subrange(128, 156) =~= r#" (#set! kind "class")) @kind"#@);
        assert(q.subrange(156, 161) =~= "\n    "@);
        lemma_four(q, 85, 128, 156, 161);
    }
    assert(q.subrange(0, 245) =~= set_out(g, 3)) by {
        reveal_strlit("(interface_declaration name: (identifier) @name");
        reveal_strlit(r#" (#set! kind "interface")) @kind"#);
        assert(q.subrange(161, 208) =~= "(interface_declaration name: (identifier) @name"@);
        assert(q.subrange(208, 240) =~= r#" (#set! kind "interface")) @kind"#@);
        assert(q.subrange(240, 245) =~= "\n    "@);
        lemma_four(q, 161, 208, 240, 245);
    }
    assert(q.subrange(0, 319) =~= set_out(g, 4)) by {
        reveal_strlit("(enum_declaration name: (identifier) @name");
        reveal_strlit(r#" (#set! kind "enum")) @kind"#);
        assert(q.subrange(245, 287) =~= "(enum_declaration name: (identifier) @name"@);
        assert(q.subrange(287, 314) =~= r#" (#set! kind "enum")) @kind"#@);
        assert(q.subrange(314, 319) =~= "\n    "@);
        lemma_four(q, 245, 287, 314, 319);
    }
    assert(q =~= q.subrange(0, 319));
}

proof fn lemma_c()
    ensures
        symbols::queries_for(Grammar::C) == set_out(Grammar::C, 3),
{
    let g = Grammar::C;
    reveal_strlit(r#"
    (function_definition declarator: (function_declarator declarator: (identifier) @name) (#set! kind "function")) @kind
    (struct_specifier name: (type_identifier) @name (#set! kind "struct")) @kind
    (enum_specifier name: (type_identifier) @name (#set! kind "enum")) @kind
    "#);
    let q = symbols::queries_for(g);
    reveal_strlit("\n    ");
    assert(set_out(g, 0) == "\n    "@);
    assert(q.subrange(0, 5) =~= "\n    "@);
    assert(q.subrange(0, 126) =~= set_out(g, 1)) by {
        reveal_strlit("(function_definition declarator: (function_declarator declarator: (identifier) @name");
        reveal_strlit(r#") (#set! kind "function")) @kind"#);
        assert(q.subrange(5, 89) =~= "(function_definition declarator: (function_declarator declarator: (identifier) @name"@);
        assert(q.subrange(89, 121) =~= r#") (#set! kind "function")) @kind"#@);
        assert(q.subrange(121, 126) =~= "\n    "@);
        lemma_four(q, 5, 89, 121, 126);
    }
    assert(q.subrange(0, 207) =~= set_out(g, 2)) by {
        reveal_strlit("(struct_specifier name: (type_identifier) @name");
        reveal_strlit(r#" (#set! kind "struct")) @kind"#);
        assert(q.subrange(126, 173) =~= "(struct_specifier name: (type_identifier) @name"@);
        assert(q.subrange(173, 202) =~= r#" (#set! kind "struct")) @kind"#@);
        assert(q.subrange(202, 207) =~= "\n    "@);
        lemma_four(q, 126, 173, 202, 207);
    }
    assert(q.subrange(0, 284) =~= set_out(g, 3)) by {
        reveal_strlit("(enum_specifier name: (type_identifier) @name");
        reveal_strlit(r#" (#set! kind "enum")) @kind"#);
        assert(q.subrange(207, 252) =~= "(enum_specifier name: (type_identifier) @name"@);
        assert(q.subrange(252, 279) =~= r#" (#set! kind "enum")) @kind"#@);
        assert(q.subrange(279, 284) =~= "\n    "@);
        lemma_four(q, 207, 252, 279, 284);
    }
    assert(q =~= q.subrange(0, 284));
}

proof fn lemma_cpp()
    ensures
        symbols::queries_for(Grammar::Cpp) == set_out(Grammar::Cpp, 5),
{
    let g = Grammar::Cpp;
    reveal_strlit(r#"
    (function_definition declarator: (function_declarator declarator: (qualified_identifier) @name) (#set! kind "function")) @kind
    (function_definition declarator: (function_declarator declarator: (identifier) @name) (#set! kind "function")) @kind
    (class_specifier name: (type_identifier) @name (#set! kind "class")) @kind
    (struct_specifier name: (type_identifier) @name (#set! kind "struct")) @kind
    (enum_specifier name: (type_identifier) @name (#set! kind "enum")) @kind
    "#);
    let q = symbols::queries_for(g);
    reveal_strlit("\n    ");
    assert(set_out(g, 0) == "\n    "@);
    assert(q.subrange(0, 5) =~= "\n    "@);
    assert(q.subrange(0, 136) =~= set_out(g, 1)) by {
        reveal_strlit("(function_definition declarator: (function_declarator declarator: (qualified_identifier) @name");
        reveal_strlit(r#") (#set! kind "function")) @kind"#);
        assert(q.subrange(5, 99) =~= "(function_definition declarator: (function_declarator declarator: (qualified_identifier) @name"@);
        assert(q.subrange(99, 131) =~= r#") (#set! kind "function")) @kind"#@);
        assert(q.subrange(131, 136) =~= "\n    "@);
        lemma_four(q, 5, 99, 131, 136);
    }
    assert(q.subrange(0, 257) =~= set_out(g, 2)) by {
        reveal_strlit("(function_definition declarator: (function_declarator declarator: (identifier) @name");
        reveal_strlit(r#") (#set! kind "function")) @kind"#);
        assert(q.subrange(136, 220) =~= "(function_definition declarator: (function_declarator declarator: (identifier) @name"@);
        assert(q.subrange(220, 252) =~= r#") (#set! kind "function")) @kind"#@);
        assert(q.subrange(252, 257) =~= "\n    "@);
        lemma_four(q, 136, 220, 252, 257);
    }
    assert(q.subrange(0, 336) =~= set_out(g, 3)) by {
        reveal_strlit("(class_specifier name: (type_identifier) @name");
        reveal_strlit(r#" (#set! kind "class")) @kind"#);
        assert(q.subrange(257, 303) =~= "(class_specifier name: (type_identifier) @name"@);
        assert(q.subrange(303, 331) =~= r#" (#set! kind "class")) @kind"#@);
        assert(q.subrange(331, 336) =~= "\n    "@);
        lemma_four(q, 257, 303, 331, 336);
    }
    assert(q.subrange(0, 417) =~= set_out(g, 4)) by {
        reveal_strlit("(struct_specifier name: (type_identifier) @name");
        reveal_strlit(r#" (#set! kind "struct")) @kind"#);
        assert(q.subrange(336, 383) =~= "(struct_specifier name: (type_identifier) @name"@);
        assert(q.subrange(383, 412) =~= r#" (#set! kind "struct")) @kind"#@);
        assert(q.subrange(412, 417) =~= "\n    "@);
        lemma_four(q, 336, 383, 412, 417);
    }
    assert(q.subrange(0, 494) =~= set_out(g, 5)) by {
        reveal_strlit("(enum_specifier name: (type_identifier) @name");
        reveal_strlit(r#" (#set! kind "enum")) @kind"#);
        assert(q.subrange(417, 462) =~= "(enum_specifier name: (type_identifier) @name"@);
        assert(q.subrange(462, 489) =~= r#" (#set! kind "enum")) @kind"#@);
        assert(q.subrange(489, 494) =~= "\n    "@);
        lemma_four(q, 417, 462, 489, 494);
    }
    assert(q =~= q.subrange(0, 494));
}
proof fn lemma_four(q: Seq<char>, a: int, b: int, c: int, d: int)
    requires
        0 <= a <= b <= c <= d <= q.len(),
    ensures
        q.subrange(0, d) == q.subrange(0, a) + q.subrange(a, b) + q.subrange(b, c) + q.subrange(c, d),
{
    assert(q.subrange(0, d) =~= q.subrange(0, a) + q.subrange(a, b) + q.subrange(b, c) + q.subrange(c, d));
}

proof fn lemma_set_out_holds(g: Grammar, n: nat, i: int)
    requires
        0 <= i < n,
    ensures
        text::occurs_in(declarations(g)[i] + endings(g)[i], set_out(g, n)),
    decreases n,
{
    let whole = set_out(g, n);
    let head = set_out(g, (n - 1) as nat);
    let part = declarations(g)[i] + endings(g)[i];
    if i == n - 1 {
        let at = head.len() as int;
        assert(whole.subrange(at, at + part.len()) =~= part);
        assert(text::occurs_at(whole, part, at));
    } else {
        lemma_set_out_holds(g, (n - 1) as nat, i);
        let at = choose|at: int| text::occurs_at(head, part, at);
        assert(whole.subrange(at, at + part.len()) =~= head.subrange(at, at + part.len()));
        assert(text::occurs_at(whole, part, at));
    }
}

/// The query of a language asks for the name of each of its declarations, and for nothing else.
pub proof fn law_query_asks_for_each_declaration(g: Grammar)
    ensures
        declarations(g).len() == endings(g).len(),
        symbols::queries_for(g) == set_out(g, declarations(g).len()),
        forall|i: int|
            0 <= i < declarations(g).len() ==> text::occurs_in(
                #[trigger] declarations(g)[i] + endings(g)[i],
                symbols::queries_for(g),
            ),
{
    lemma_rust();
    lemma_python();
    lemma_javascript();
    lemma_typescript();
    lemma_go();
    lemma_java();
    lemma_c();
    lemma_cpp();
    assert forall|i: int| 0 <= i < declarations(g).len() implies text::occurs_in(
        #[trigger] declarations(g)[i] + endings(g)[i],
        symbols::queries_for(g),
    ) by {
        lemma_set_out_holds(g, declarations(g).len(), i);
    }
}

/// A file is read by the grammar of the language that its extension stands for, and no extension
/// stands for two; a file with any other extension, or with none, is not supported.
pub proof fn law_extension_gives_language(ext: Seq<char>, g: Grammar, path: Seq<char>)
    ensures
        symbols::grammar_for(ext) == Some(g) <==> extensions(g).contains(ext),
        symbols::supported(path) <==> exists|h: Grammar, e: Seq<char>|
            #[trigger] extensions(h).contains(e) && paths::extension_of(path) == Some(e),
{
    lemma_extension(ext, g);
    assert forall|h: Grammar, e: Seq<char>| #[trigger] extensions(h).contains(e) && paths::extension_of(path)
        == Some(e) implies symbols::supported(path) by {
        lemma_extension(e, h);
        symbols::law_supported_has_grammar(e);
    }
    if symbols::supported(path) {
        let e = paths::extension_of(path)->0;
        symbols::law_supported_has_grammar(e);
        let h = symbols::grammar_for(e)->0;
        lemma_extension(e, h);
        assert(extensions(h).contains(e) && paths::extension_of(path) == Some(e));
    }
}

proof fn lemma_extension(ext: Seq<char>, g: Grammar)
    ensures
        symbols::grammar_for(ext) == Some(g) <==> extensions(g).contains(ext),
{
    reveal_strlit("rs");
    reveal_strlit("py");
    reveal_strlit("js");
    reveal_strlit("jsx");
    reveal_strlit("ts");
    reveal_strlit("tsx");
    reveal_strlit("go");
    reveal_strlit("java");
    reveal_strlit("c");
    reveal_strlit("h");
    reveal_strlit("cpp");
    reveal_strlit("cc");
    reveal_strlit("cxx");
    reveal_strlit("hpp");
    let all = extensions(g);
    assert("rs"@[0] != "py"@[0] && "rs"@[0] != "js"@[0] && "rs"@[0] != "ts"@[0] && "rs"@[0] != "go"@[0]);
    assert("rs"@[0] != "cc"@[0] && "py"@[0] != "js"@[0] && "py"@[0] != "ts"@[0] && "py"@[0] != "go"@[0]);
    assert("py"@[0] != "cc"@[0] && "js"@[0] != "ts"@[0] && "js"@[0] != "go"@[0] && "js"@[0] != "cc"@[0]);
    assert("ts"@[0] != "go"@[0] && "ts"@[0] != "cc"@[0] && "go"@[0] != "cc"@[0]);
    assert("jsx"@[0] != "tsx"@[0] && "jsx"@[0] != "cpp"@[0] && "jsx"@[0] != "cxx"@[0] && "jsx"@[0] != "hpp"@[0]);
    assert("tsx"@[0] != "cpp"@[0] && "tsx"@[0] != "cxx"@[0] && "tsx"@[0] != "hpp"@[0]);
    assert("cpp"@[1] != "cxx"@[1] && "cpp"@[0] != "hpp"@[0] && "cxx"@[0] != "hpp"@[0]);
    assert("c"@[0] != "h"@[0]);
    if symbols::grammar_for(ext) == Some(g) {
        match g {
            Grammar::JavaScript => {
                assert(all[0] == ext || all[1] == ext);
            },
            Grammar::TypeScript => {
                assert(all[0] == ext || all[1] == ext);
            },
            Grammar::C => {
                assert(all[0] == ext || all[1] == ext);
            },
            Grammar::Cpp => {
                assert(all[0] == ext || all[1] == ext || all[2] == ext || all[3] == ext);
            },
            _ => {
                assert(all[0] == ext);
            },
        }
    }
    if all.contains(ext) {
        let i = all.index_of(ext);
        assert(all[i] == ext);
        match g {
            Grammar::JavaScript => {
                assert(i == 0 || i == 1);
            },
            Grammar::TypeScript => {
                assert(i == 0 || i == 1);
            },
            Grammar::C => {
                assert(i == 0 || i == 1);
            },
            Grammar::Cpp => {
                assert(i == 0 || i == 1 || i == 2 || i == 3);
            },
            _ => {
                assert(i == 0);
            },
        }
    }
}

/// The keywords of a kind of symbol.
pub open spec fn keywords(kind: SymbolKind) -> Seq<Seq<char>> {
    match kind {
        SymbolKind::Class => seq!["class"@],
        SymbolKind::Struct => seq!["struct"@],
        SymbolKind::Enum => seq!["enum"@],
        SymbolKind::Interface => seq!["interface"@, "trait"@],
        SymbolKind::Module => seq!["mod"@, "module"@, "package"@],
        SymbolKind::Constant => seq!["const"@, "static"@],
        SymbolKind::Function => seq![],
        SymbolKind::Method => seq![],
    }
}

/// A keyword makes the kind of symbol that it is a keyword of; every other word makes a function.
pub proof fn law_keyword_makes_kind(word: Seq<char>, kind: SymbolKind)
    ensures
        keywords(kind).contains(word) ==> symbols::kind_of(word) == kind,
        symbols::kind_of(word) == kind && kind != SymbolKind::Function ==> keywords(kind).contains(word),
{
    reveal_strlit("class");
    reveal_strlit("struct");
    reveal_strlit("enum");
    reveal_strlit("interface");
    reveal_strlit("trait");
    reveal_strlit("mod");
    reveal_strlit("module");
    reveal_strlit("package");
    reveal_strlit("const");
    reveal_strlit("static");
    assert("class"@[1] != "trait"@[1] && "class"@[1] != "const"@[1] && "trait"@[0] != "const"@[0]);
    assert("struct"@[2] != "static"@[2] && "struct"@[0] != "module"@[0] && "static"@[0] != "module"@[0]);
    let all = keywords(kind);
    if all.contains(word) {
        let i = all.index_of(word);
        assert(all[i] == word);
        assert(i == 0 || i == 1 || i == 2);
    }
    if symbols::kind_of(word) == kind && kind != SymbolKind::Function {
        match kind {
            SymbolKind::Interface => {
                assert(all[0] == word || all[1] == word);
            },
            SymbolKind::Module => {
                assert(all[0] == word || all[1] == word || all[2] == word);
            },
            SymbolKind::Constant => {
                assert(all[0] == word || all[1] == word);
            },
            SymbolKind::Method => {},
            _ => {
                assert(all[0] == word);
            },
        }
    }
}

/// The capture at `a` is the last one that was made under `name`.
pub open spec fn is_last(captures: Seq<grammar::CaptureView>, name: Seq<char>, a: int) -> bool {
    &&& 0 <= a < captures.len()
    &&& captures[a].name == name
    &&& forall|k: int| a < k < captures.len() ==> (#[trigger] captures[k]).name != name
}

/// The symbol is called and stands where the last node captured as a name says, and is of the kind
/// that the last node captured as a kind says.
pub open spec fn stands_for(captures: Seq<grammar::CaptureView>, s: symbols::SymbolView) -> bool {
    exists|a: int, b: int|
        {
            &&& #[trigger] is_last(captures, "name"@, a)
            &&& #[trigger] is_last(captures, "kind"@, b)
            &&& s.name == captures[a].text
            &&& s.start_line == captures[a].start_row as u32
            &&& s.end_line == captures[a].end_row as u32
            &&& s.kind == symbols::kind_of(captures[b].text)
        }
}

/// Both a name and a kind were captured.
pub open spec fn is_whole(captures: Seq<grammar::CaptureView>) -> bool {
    &&& exists|a: int| 0 <= a < captures.len() && (#[trigger] captures[a]).name == "name"@
    &&& exists|b: int| 0 <= b < captures.len() && (#[trigger] captures[b]).name == "kind"@
}

proof fn lemma_last_under(captures: Seq<grammar::CaptureView>, name: Seq<char>)
    ensures
        match symbols::last_under(captures, name) {
            Some(c) => exists|a: int| #[trigger] is_last(captures, name, a) && captures[a] == c,
            None => forall|a: int| 0 <= a < captures.len() ==> (#[trigger] captures[a]).name != name,
        },
    decreases captures.len(),
{
    if captures.len() > 0 {
        let n = captures.len() - 1;
        if captures.last().name == name {
            assert(is_last(captures, name, n));
        } else {
            let init = captures.drop_last();
            lemma_last_under(init, name);
            if let Some(c) = symbols::last_under(init, name) {
                let a = choose|a: int| #[trigger] is_last(init, name, a) && init[a] == c;
                assert forall|k: int| a < k < captures.len() implies (#[trigger] captures[k]).name != name by {
                    if k < n {
                        assert(init[k] == captures[k]);
                    }
                }
                assert(init[a] == captures[a]);
                assert(is_last(captures, name, a));
            } else {
                assert forall|a: int| 0 <= a < captures.len() implies (#[trigger] captures[a]).name != name by {
                    if a < n {
                        assert(init[a] == captures[a]);
                    }
                }
            }
        }
    }
}

proof fn lemma_match(captures: Seq<grammar::CaptureView>, s: symbols::SymbolView)
    ensures
        symbols::match_symbols()(captures).contains(s) <==> stands_for(captures, s),
        symbols::match_symbols()(captures).len() == (if is_whole(captures) {
            1nat
        } else {
            0
        }),
{
    let made = symbols::match_symbols()(captures);
    lemma_last_under(captures, "name"@);
    lemma_last_under(captures, "kind"@);
    if let (Some(name), Some(kind)) = (
        symbols::last_under(captures, "name"@),
        symbols::last_under(captures, "kind"@),
    ) {
        let a = choose|a: int| #[trigger] is_last(captures, "name"@, a) && captures[a] == name;
        let b = choose|b: int| #[trigger] is_last(captures, "kind"@, b) && captures[b] == kind;
        assert(captures[a].name == "name"@ && captures[b].name == "kind"@);
        assert(made.len() == 1);
        if made.contains(s) {
            assert(made[0] == s);
            assert(is_last(captures, "name"@, a) && is_last(captures, "kind"@, b));
        }
        assert forall|x: int, y: int| #[trigger]
            is_last(captures, "name"@, x) && #[trigger] is_last(captures, "kind"@, y) implies x == a && y == b by {
            assert(captures[x].name == "name"@ && captures[y].name == "kind"@);
        }
        if stands_for(captures, s) {
            assert(made[0] == s);
        }
    }
}

/// Each match that has both a name and a kind makes one symbol, and no symbol is made otherwise.
pub proof fn law_each_whole_match_is_a_symbol(
    matches: Seq<Seq<grammar::CaptureView>>,
    s: symbols::SymbolView,
)
    ensures
        ({
            let list = gather::gather(matches, symbols::match_symbols());
            &&& list.contains(s) <==> exists|i: int| 0 <= i < matches.len() && stands_for(#[trigger] matches[i], s)
            &&& list.len() == matches.filter(|m: Seq<grammar::CaptureView>| is_whole(m)).len()
        }),
{
    let f = symbols::match_symbols();
    let p = |m: Seq<grammar::CaptureView>| is_whole(m);
    gather::lemma_gather_source(matches, f, s);
    assert forall|i: int| 0 <= i < matches.len() implies f(#[trigger] matches[i]).contains(s) == stands_for(
        matches[i],
        s,
    ) && f(matches[i]).len() == (if p(matches[i]) {
        1nat
    } else {
        0
    }) by {
        lemma_match(matches[i], s);
    }
    gather::lemma_gather_count(matches, f, p);
    if exists|i: int| 0 <= i < matches.len() && stands_for(#[trigger] matches[i], s) {
        let i = choose|i: int| 0 <= i < matches.len() && stands_for(#[trigger] matches[i], s);
        assert(f(matches[i]).contains(s));
    }
}

/// Symbols come in the order of the matches: one more match adds its symbol behind the others, or
/// nothing.
pub proof fn law_symbols_come_in_order(matches: Seq<Seq<grammar::CaptureView>>, m: Seq<grammar::CaptureView>)
    ensures
        ({
            let before = gather::gather(matches, symbols::match_symbols());
            let after = gather::gather(matches.push(m), symbols::match_symbols());
            if is_whole(m) {
                exists|s: symbols::SymbolView| #[trigger] stands_for(m, s) && after == before.push(s)
            } else {
                after == before
            }
        }),
{
    let f = symbols::match_symbols();
    let all = matches.push(m);
    let n = matches.len() as int;
    gather::lemma_gather_step(all, f, n);
    assert(all.take(n) =~= matches);
    assert(all.take(n + 1) =~= all);
    assert(all[n] == m);
    let made = f(m);
    if is_whole(m) {
        lemma_match(m, made[0]);
        assert(made.contains(made[0]));
        assert(made =~= seq![made[0]]);
        assert(gather::gather(all, f) =~= gather::gather(matches, f).push(made[0]));
    } else {
        let none = symbols::SymbolView {
            name: Seq::empty(),
            kind: SymbolKind::Function,
            start_line: 0,
            end_line: 0,
        };
        lemma_match(m, none);
        assert(made =~= seq![]);
        assert(gather::gather(all, f) =~= gather::gather(matches, f));
    }
}

/// No symbols are extracted exactly where the file has no supported extension, or its text cannot be
/// parsed, or the query of its language does not compile; the error says which. Otherwise the symbols
/// are those that the matches of that query on that text stand for.
pub proof fn law_extraction_fails_for_a_reason(
    path: Seq<char>,
    source: Seq<char>,
    ext: Seq<char>,
    g: Grammar,
    list: Seq<symbols::SymbolView>,
)
    ensures
        !symbols::supported(path) ==> (symbols::refused(path, source) matches Some(
            symbols::ExtractErrorView::Unsupported(named),
        ) && (paths::extension_of(path) matches Some(e) ==> named == e)),
        paths::extension_of(path) == Some(ext) && extensions(g).contains(ext) ==> {
            let language = grammar::language_of(g);
            &&& symbols::refused(path, source) is None <==> grammar::parse_failure(language, source) is None
                && grammar::query_failure(language, set_out(g, declarations(g).len())) is None
            &&& grammar::parse_failure(language, source) matches Some(why) ==> symbols::refused(path, source)
                == Some(symbols::ExtractErrorView::Failed(why))
            &&& grammar::parse_failure(language, source) is None ==> (grammar::query_failure(
                language,
                set_out(g, declarations(g).len()),
            ) matches Some(why) ==> symbols::refused(path, source) == Some(
                symbols::ExtractErrorView::Failed(why),
            ))
            &&& symbols::yields(path, source, list) <==> exists|tree: tree_sitter::Tree, query: tree_sitter::Query|
                {
                    &&& grammar::tree_origin(tree) == (language, source)
                    &&& grammar::query_origin(query) == (language, set_out(g, declarations(g).len()))
                    &&& list == gather::gather(
                        #[trigger] grammar::query_matches(tree, query),
                        symbols::match_symbols(),
                    )
                }
        },
{
    symbols::law_extracts_supported(path, source, list);
    law_extension_gives_language(ext, g, path);
    law_query_asks_for_each_declaration(g);
    if paths::extension_of(path) == Some(ext) && extensions(g).contains(ext) {
        assert(symbols::extension_text(path) == ext);
    }
}

} // verus!
