//! What the program says of itself, of its counts and of what went wrong.
use crate::commands;
use crate::grammar;
use crate::hooks;
use crate::hooks::{Event, Refusal};
use crate::index;
use crate::index::MatchConfidence;
use crate::reports;
use crate::symbols;
use crate::symbols::SymbolKind;
use crate::text;
use crate::wording;
use vstd::prelude::*;

verus! {

/// The number that the environment sets is the bound, however large it is; without a number that can
/// be held the bound is the default.
pub proof fn law_set_bound_is_taken(n: nat, s: Seq<char>)
    ensures
        n <= usize::MAX ==> index::bound_set_by(Some(text::decimal(n))) == n,
        text::number_in(s) is None ==> index::bound_set_by(Some(s)) == 20_000,
        text::number_in(s) matches Some(m) ==> m > usize::MAX ==> index::bound_set_by(Some(s)) == 20_000,
        index::bound_set_by(None) == 20_000,
{
    wording::law_decimal_reads_back(n);
}

/// A confidence and a kind are each told by their words: the word says which it is.
pub proof fn law_words_tell_apart(c: MatchConfidence, d: MatchConfidence, k: SymbolKind, m: SymbolKind)
    ensures
        index::confidence_word(c) == index::confidence_word(d) ==> c == d,
        symbols::kind_word(k) == symbols::kind_word(m) ==> k == m,
        index::confidence_word(MatchConfidence::Exact) == "exact"@,
        index::confidence_word(MatchConfidence::Strong) == "strong"@,
        index::confidence_word(MatchConfidence::Fuzzy) == "fuzzy"@,
        symbols::kind_word(SymbolKind::Function) == "function"@,
        symbols::kind_word(SymbolKind::Method) == "method"@,
        symbols::kind_word(SymbolKind::Constant) == "constant"@,
        k != SymbolKind::Function && k != SymbolKind::Method && k != SymbolKind::Constant ==> symbols::kind_of(
            symbols::kind_word(k),
        ) == k,
{
    reveal_strlit("exact");
    reveal_strlit("strong");
    reveal_strlit("fuzzy");
    assert("exact"@[0] != "fuzzy"@[0] && "exact"@.len() != "strong"@.len() && "fuzzy"@.len() != "strong"@.len());
    reveal_strlit("function");
    reveal_strlit("class");
    reveal_strlit("struct");
    reveal_strlit("enum");
    reveal_strlit("interface");
    reveal_strlit("module");
    reveal_strlit("constant");
    reveal_strlit("method");
    reveal_strlit("trait");
    reveal_strlit("mod");
    reveal_strlit("package");
    assert("function"@.len() == 8 && "class"@.len() == 5 && "struct"@.len() == 6 && "enum"@.len() == 4);
    assert("interface"@.len() == 9 && "module"@.len() == 6 && "constant"@.len() == 8 && "method"@.len() == 6);
    assert("function"@[0] != "constant"@[0]);
    assert("struct"@[0] != "module"@[0] && "struct"@[0] != "method"@[0] && "module"@[1] != "method"@[1]);
}

/// The summary gives the notes, the source files, the links and the share, in this order, each as a
/// number that can be read back.
pub proof fn law_summary_gives_the_counts(c: reports::Coverage, percent: nat)
    ensures
        exists|notes: Seq<char>, files: Seq<char>, links: Seq<char>, share: Seq<char>|
            {
                &&& reports::summary_line(c, percent) == #[trigger] ("Doctrack: "@ + notes + " notes, "@ + files
                    + " code files, "@ + links + " links, "@ + share + "% coverage"@)
                &&& text::number_in(notes) == Some(c.notes as nat)
                &&& text::number_in(files) == Some(c.code_files as nat)
                &&& text::number_in(links) == Some(c.links as nat)
                &&& text::number_in(share) == Some(percent)
            },
{
    wording::law_decimal_reads_back(c.notes as nat);
    wording::law_decimal_reads_back(c.code_files as nat);
    wording::law_decimal_reads_back(c.links as nat);
    wording::law_decimal_reads_back(percent);
    let notes = text::decimal(c.notes as nat);
    let files = text::decimal(c.code_files as nat);
    let links = text::decimal(c.links as nat);
    let share = text::decimal(percent);
    assert(reports::summary_line(c, percent) == "Doctrack: "@ + notes + " notes, "@ + files + " code files, "@
        + links + " links, "@ + share + "% coverage"@);
}

/// The version line gives the version, and then the revision in parentheses.
pub proof fn law_version_line_gives_both(version: Seq<char>, revision: Seq<char>)
    ensures
        commands::version_line(version, revision) == "doctrack-mcp "@ + version + " ("@ + revision + ")"@,
{
}

/// An update is a success only where both programs were installed, and then the assistant that has to
/// be restarted is named; otherwise it is said to have failed, whatever the assistant.
pub proof fn law_update_succeeds_as_a_whole(server: bool, editor: bool, assistant: Seq<char>)
    ensures
        server && editor ==> exists|a: Seq<char>, b: Seq<char>|
            commands::update_line(server, editor, assistant) == #[trigger] (a + assistant + b) && text::begins_with(
                a,
                "Both binaries updated successfully."@,
            ),
        !(server && editor) ==> commands::update_line(server, editor, assistant)
            == "Some installations may have failed — check output above."@,
{
    if server && editor {
        let a = "Both binaries updated successfully.\nRestart "@;
        let b = " and your editor for changes to take effect."@;
        reveal_strlit("Both binaries updated successfully.\nRestart ");
        reveal_strlit("Both binaries updated successfully.");
        assert(a.take(35) =~= "Both binaries updated successfully."@);
        assert(commands::update_line(server, editor, assistant) == a + assistant + b);
    }
}

/// What is said of settings that get no hooks begins with the path of the settings, and says what is in
/// the way: the settings, their hooks, the hooks of an event by its key, or what the parser said.
pub proof fn law_refusal_names_the_place(path: Seq<char>, message: Seq<char>)
    ensures
        hooks::refusal_text(path, Refusal::TopLevel) == path + " must contain a JSON object at the top level"@,
        hooks::refusal_text(path, Refusal::Hooks) == path
            + " has a non-object `hooks` entry — refusing to overwrite it"@,
        hooks::refusal_text(path, Refusal::EventHooks(Event::SessionStart)) == path + " has a non-array `hooks."@
            + "SessionStart"@ + "` entry — refusing to overwrite it"@,
        hooks::refusal_text(path, Refusal::EventHooks(Event::PostToolUse)) == path + " has a non-array `hooks."@
            + "PostToolUse"@ + "` entry — refusing to overwrite it"@,
        hooks::not_json_text(path, message) == path + " is not valid JSON ("@ + message
            + ") — fix or remove it, then re-run --setup-hooks"@,
{
}

/// What an extraction error is reported as says its cause: the extension that is not supported, or what
/// the parser or the query compiler said.
pub proof fn law_error_says_its_cause(ext: Seq<char>, message: Seq<char>)
    ensures
        symbols::error_text(symbols::ExtractErrorView::Unsupported(ext)) == "unsupported language: "@ + ext,
        symbols::error_text(symbols::ExtractErrorView::Failed(grammar::FailureView::Language(message))) == message,
        symbols::error_text(symbols::ExtractErrorView::Failed(grammar::FailureView::Parse))
            == "failed to parse source"@,
        symbols::error_text(symbols::ExtractErrorView::Failed(grammar::FailureView::Query(message)))
            == "doctrack symbol query failed to compile: "@ + message,
{
}

} // verus!
