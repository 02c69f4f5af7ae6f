//! What an invocation, an installation of hooks and a change on disk come to, said of the words, the
//! settings and the paths they are made of.
use crate::changing;
use crate::commands;
use crate::commands::CommandView;
use crate::fuzzy;
use crate::hooks;
use crate::hooks::{Event, Refusal};
use crate::index;
use crate::json;
use crate::laws;
use crate::linking;
use crate::matching;
use crate::notes;
use crate::paths;
use crate::project;
use crate::spelling;
use crate::symbols;
use crate::text;
use crate::update;
use crate::vault;
use crate::watch;
use crate::watch::EventView;
use vstd::prelude::*;

verus! {

/// The second word is there, and is no option.
pub open spec fn has_argument(args: Seq<Seq<char>>) -> bool {
    args.len() >= 2 && !(args[1].len() > 0 && args[1][0] == '-')
}

/// The option takes an argument.
pub open spec fn takes_argument(flag: Seq<char>) -> bool {
    flag == "--check-impact"@ || flag == "--validate-note"@
}

/// The option stands for a command.
pub open spec fn is_option(flag: Seq<char>) -> bool {
    ||| takes_argument(flag)
    ||| flag == "--coverage"@
    ||| flag == "--setup-hooks"@
    ||| flag == "--update"@
    ||| flag == "--version"@
    ||| flag == "-V"@
    ||| flag == "--help"@
    ||| flag == "-h"@
}

proof fn lemma_argument(args: Seq<Seq<char>>)
    ensures
        commands::argument(args) == (if has_argument(args) {
            Some(args[1])
        } else {
            None
        }),
{
    reveal_strlit("-");
    if args.len() > 1 {
        let a = args[1];
        if text::begins_with(a, "-"@) {
            assert(a.take(1)[0] == "-"@[0]);
        }
        if a.len() > 0 && a[0] == '-' {
            assert(a.take(1) =~= "-"@);
        }
    }
}

/// The server starts without words and only then. Each option stands for its command, whatever words
/// follow; one that takes an argument takes the next word, and lacks it where there is none or where
/// it is an option too. Any other first word is no option.
pub proof fn law_first_word_is_the_command(args: Seq<Seq<char>>)
    ensures
        ({
            let c = commands::command_for(args);
            &&& c is Serve <==> args.len() == 0
            &&& args.len() > 0 ==> {
                &&& c is CheckImpact <==> args[0] == "--check-impact"@ && has_argument(args)
                &&& c matches CommandView::CheckImpact(file) ==> file == args[1]
                &&& c is ValidateNote <==> args[0] == "--validate-note"@ && has_argument(args)
                &&& c matches CommandView::ValidateNote(note) ==> note == args[1]
                &&& c is MissingArgument <==> takes_argument(args[0]) && !has_argument(args)
                &&& c matches CommandView::MissingArgument(flag) ==> flag == args[0]
                &&& c is Coverage <==> args[0] == "--coverage"@
                &&& c is SetupHooks <==> args[0] == "--setup-hooks"@
                &&& c is Update <==> args[0] == "--update"@
                &&& c is Version <==> args[0] == "--version"@ || args[0] == "-V"@
                &&& c is Help <==> args[0] == "--help"@ || args[0] == "-h"@
                &&& c is Unknown <==> !is_option(args[0])
                &&& c matches CommandView::Unknown(flag) ==> flag == args[0]
            }
        }),
{
    lemma_argument(args);
    reveal_strlit("--check-impact");
    reveal_strlit("--validate-note");
    reveal_strlit("--coverage");
    reveal_strlit("--setup-hooks");
    reveal_strlit("--update");
    reveal_strlit("--version");
    reveal_strlit("-V");
    reveal_strlit("--help");
    reveal_strlit("-h");
    assert("--check-impact"@.len() == 14 && "--validate-note"@.len() == 15 && "--coverage"@.len() == 10);
    assert("--setup-hooks"@.len() == 13 && "--update"@.len() == 8 && "--version"@.len() == 9);
    assert("--help"@.len() == 6 && "-V"@.len() == 2 && "-h"@.len() == 2);
    assert("-V"@[1] != "-h"@[1]);
}

/// An invocation is complained about exactly when it lacks an argument or is no option, and the
/// complaint names the word that it is about.
pub proof fn law_complaint_names_the_word(args: Seq<Seq<char>>)
    ensures
        commands::complaint(commands::command_for(args)) is Some <==> args.len() > 0 && (!is_option(args[0]) || (
        takes_argument(args[0]) && !has_argument(args))),
        commands::complaint(commands::command_for(args)) matches Some(said) ==> exists|a: Seq<char>, b: Seq<char>|
            said == #[trigger] (a + seq!['`'] + args[0] + seq!['`'] + b) && (text::occurs_in(
                "requires an argument"@,
                b,
            ) <==> is_option(args[0])),
{
    law_first_word_is_the_command(args);
    if let Some(said) = commands::complaint(commands::command_for(args)) {
        reveal_strlit("doctrack-mcp: `");
        reveal_strlit("` requires an argument\n");
        reveal_strlit("doctrack-mcp: unrecognised option `");
        reveal_strlit("`\n");
        match commands::command_for(args) {
            CommandView::MissingArgument(flag) => {
                let x = "doctrack-mcp: `"@;
                let y = "` requires an argument\n"@;
                let a = x.drop_last();
                let b = y.skip(1);
                assert(said =~= a + seq!['`'] + args[0] + seq!['`'] + b);
                reveal_strlit("requires an argument");
                assert(b.subrange(1, 21) =~= "requires an argument"@);
                assert(text::occurs_at(b, "requires an argument"@, 1));
            },
            CommandView::Unknown(flag) => {
                let x = "doctrack-mcp: unrecognised option `"@;
                let y = "`\n"@;
                let a = x.drop_last();
                let b = y.skip(1);
                assert(said =~= a + seq!['`'] + args[0] + seq!['`'] + b);
                reveal_strlit("requires an argument");
                assert(b.len() == 1);
                assert forall|at: int| !text::occurs_at(b, "requires an argument"@, at) by {}
            },
            _ => {},
        }
    }
}

/// What stands under `key`, where an array does: its elements.
pub open spec fn array_under(m: Map<Seq<char>, serde_json::Value>, key: Seq<char>) -> Option<
    Seq<serde_json::Value>,
> {
    if m.contains_key(key) {
        json::elements(m[key])
    } else {
        Some(Seq::empty())
    }
}

/// What stands under `key`, where an object does: its members.
pub open spec fn object_under(m: Map<Seq<char>, serde_json::Value>, key: Seq<char>) -> Option<
    Map<Seq<char>, serde_json::Value>,
> {
    if m.contains_key(key) {
        json::members(m[key])
    } else {
        Some(Map::empty())
    }
}

/// Hooks are refused exactly where they would overwrite something that is no object or no array: the
/// settings themselves, their hooks, or the hooks of one of the two events.
pub proof fn law_refusal_says_what_is_in_the_way(settings: serde_json::Value)
    ensures
        hooks::refusal(settings) == Some(Refusal::TopLevel) <==> json::members(settings) is None,
        json::members(settings) matches Some(top) ==> {
            &&& hooks::refusal(settings) == Some(Refusal::Hooks) <==> object_under(top, "hooks"@) is None
            &&& object_under(top, "hooks"@) matches Some(events) ==> {
                &&& hooks::refusal(settings) == Some(Refusal::EventHooks(Event::SessionStart)) <==> array_under(
                    events,
                    "SessionStart"@,
                ) is None
                &&& hooks::refusal(settings) == Some(Refusal::EventHooks(Event::PostToolUse)) <==> array_under(
                    events,
                    "SessionStart"@,
                ) is Some && array_under(events, "PostToolUse"@) is None
                &&& hooks::refusal(settings) is None <==> array_under(events, "SessionStart"@) is Some
                    && array_under(events, "PostToolUse"@) is Some
            }
        },
{
}

/// The object has the text under the key.
pub open spec fn holds_text(m: Map<Seq<char>, serde_json::Value>, key: Seq<char>, s: Seq<char>) -> bool {
    m.contains_key(key) && json::string_in(m[key]) == Some(s)
}

/// The hook runs the command, shows the status, and does nothing else.
pub open spec fn runs(
    hook: Map<Seq<char>, serde_json::Value>,
    command: Seq<char>,
    status: Seq<char>,
) -> bool {
    array_under(hook, "hooks"@) matches Some(actions) && actions.len() == 1 && (json::members(actions[0])
        matches Some(action) && action.dom() == set!["type"@, "command"@, "statusMessage"@] && holds_text(
        action,
        "type"@,
        "command"@,
    ) && holds_text(action, "command"@, command) && holds_text(action, "statusMessage"@, status))
}

/// The hook of the start of a session prints the coverage; the hook of a written note checks it.
pub open spec fn is_wanted(v: serde_json::Value, event: Event) -> bool {
    json::members(v) matches Some(hook) && match event {
        Event::SessionStart => hook.dom() == set!["hooks"@] && runs(
            hook,
            "if [ -d .doctrack ]; then DOCTRACK_ROOT=\"$(pwd)\" doctrack-mcp --coverage 2>/dev/null; fi"@,
            "Doctrack: checking vault..."@,
        ),
        Event::PostToolUse => hook.dom() == set!["matcher"@, "hooks"@] && holds_text(
            hook,
            "matcher"@,
            "mcp__obsidian__write_note|mcp__obsidian__patch_note"@,
        ) && runs(
            hook,
            "NOTE=$(cat | jq -r '.tool_input.path // empty'); if [ -n \"$NOTE\" ] && [ -d .doctrack ]; then DOCTRACK_ROOT=\"$(pwd)\" doctrack-mcp --validate-note \"$NOTE\" 2>/dev/null; fi"@,
            "Doctrack: validating note..."@,
        ),
    }
}

/// One of the hooks speaks of the program.
pub open spec fn mentions_program(list: Seq<serde_json::Value>) -> bool {
    exists|i: int|
        0 <= i < list.len() && text::occurs_in("doctrack"@, json::rendered(#[trigger] list[i]))
}

/// The hooks of an event after an installation: those that were there, and behind them the one that
/// is wanted where none of them spoke of the program.
pub open spec fn has_wanted(
    before: Seq<serde_json::Value>,
    after: Seq<serde_json::Value>,
    event: Event,
) -> bool {
    if mentions_program(before) {
        after == before
    } else {
        exists|hook: serde_json::Value| after == #[trigger] before.push(hook) && is_wanted(hook, event)
    }
}

proof fn lemma_has_wanted(before: Seq<serde_json::Value>, after: Seq<serde_json::Value>, event: Event)
    requires
        hooks::with_hook(before, after, event),
    ensures
        has_wanted(before, after, event),
{
    assert(hooks::any_ours(before) <==> mentions_program(before)) by {
        if mentions_program(before) {
            let i = choose|i: int|
                0 <= i < before.len() && text::occurs_in("doctrack"@, json::rendered(#[trigger] before[i]));
            assert(hooks::is_ours(before[i]));
        }
        if hooks::any_ours(before) {
            let i = choose|i: int| 0 <= i < before.len() && hooks::is_ours(#[trigger] before[i]);
            assert(text::occurs_in("doctrack"@, json::rendered(before[i])));
        }
    }
    if !mentions_program(before) {
        assert(after =~= before.push(after.last()));
        assert(is_wanted(after.last(), event));
    }
}

/// An installation puts the wanted hooks under the two events of the settings, where the program has
/// none yet, and leaves every other setting, event and hook as it was.
pub proof fn law_installation_adds_wanted_hooks(
    before: serde_json::Value,
    after: serde_json::Value,
    k: Seq<char>,
)
    requires
        hooks::installed(before, after),
    ensures
        json::members(before) matches Some(old_top) && json::members(after) matches Some(new_top) && {
            &&& k != "hooks"@ ==> (new_top.contains_key(k) <==> old_top.contains_key(k)) && (old_top.contains_key(
                k,
            ) ==> new_top[k] == old_top[k])
            &&& new_top.contains_key("hooks"@)
            &&& object_under(old_top, "hooks"@) matches Some(old_events) && json::members(
                new_top["hooks"@],
            ) matches Some(new_events) && {
                &&& k != "SessionStart"@ && k != "PostToolUse"@ ==> (new_events.contains_key(k)
                    <==> old_events.contains_key(k)) && (old_events.contains_key(k) ==> new_events[k]
                    == old_events[k])
                &&& new_events.contains_key("SessionStart"@) && new_events.contains_key("PostToolUse"@)
                &&& array_under(old_events, "SessionStart"@) matches Some(a) && array_under(
                    new_events,
                    "SessionStart"@,
                ) matches Some(b) && has_wanted(a, b, Event::SessionStart)
                &&& array_under(old_events, "PostToolUse"@) matches Some(a) && array_under(
                    new_events,
                    "PostToolUse"@,
                ) matches Some(b) && has_wanted(a, b, Event::PostToolUse)
            }
        },
{
    let old_top = json::members(before)->0;
    let new_top = json::members(after)->0;
    let old_events = object_under(old_top, "hooks"@)->0;
    let new_events = json::members(new_top["hooks"@])->0;
    assert(new_top.dom().contains("hooks"@));
    assert(k != "hooks"@ ==> (new_top.dom().contains(k) <==> old_top.dom().contains(k)));
    assert(new_events.dom().contains("SessionStart"@) && new_events.dom().contains("PostToolUse"@));
    assert(k != "SessionStart"@ && k != "PostToolUse"@ ==> (new_events.dom().contains(k)
        <==> old_events.dom().contains(k)));
    lemma_has_wanted(
        array_under(old_events, "SessionStart"@)->0,
        array_under(new_events, "SessionStart"@)->0,
        Event::SessionStart,
    );
    lemma_has_wanted(
        array_under(old_events, "PostToolUse"@)->0,
        array_under(new_events, "PostToolUse"@)->0,
        Event::PostToolUse,
    );
}

/// The path lies in the vault.
pub open spec fn is_in_vault(vault_root: Seq<char>, path: Seq<char>) -> bool {
    exists|rest: Seq<Seq<char>>| paths::components(path) == #[trigger] (paths::components(vault_root) + rest)
}

/// The path is that of a note: it ends in `.md`, and leads through no directory of the note editor.
pub open spec fn is_note(path: Seq<char>) -> bool {
    &&& paths::extension_of(path) == Some("md"@)
    &&& !paths::components(path).contains(".obsidian"@)
    &&& !paths::components(path).contains(".trash"@)
}

/// In the vault a change is one of a note or means nothing; elsewhere it is one of a source file or
/// means nothing. Whether the file is there now says whether it was changed or removed.
pub proof fn law_change_is_of_note_or_source(vault_root: Seq<char>, path: Seq<char>, exists: bool)
    ensures
        watch::event_for(vault_root, path, exists) == (if is_in_vault(vault_root, path) && is_note(path) {
            Some(
                if exists {
                    EventView::VaultNoteChanged(path)
                } else {
                    EventView::VaultNoteRemoved(path)
                },
            )
        } else if !is_in_vault(vault_root, path) && symbols::supported(path) {
            Some(
                if exists {
                    EventView::CodeFileChanged(path)
                } else {
                    EventView::CodeFileRemoved(path)
                },
            )
        } else {
            None
        }),
        vault::is_internal(path) <==> paths::components(path).contains(".obsidian"@) || paths::components(
            path,
        ).contains(".trash"@),
{
    spelling::law_under_is_a_beginning(path, vault_root);
    let c = paths::components(path);
    if vault::is_internal(path) {
        let i = choose|i: int| 0 <= i < c.len() && vault::editor_part(#[trigger] c[i]);
        assert(c.contains(c[i]));
    }
    if c.contains(".obsidian"@) {
        assert(vault::editor_part(c[c.index_of(".obsidian"@)]));
    }
    if c.contains(".trash"@) {
        assert(vault::editor_part(c[c.index_of(".trash"@)]));
    }
}

/// A changed note is read from what its file says now, and a removed one is gone; a changed source
/// file has the symbols that are found in it, and a removed one has none. What cannot be read, or not
/// parsed, changes nothing.
pub proof fn law_change_is_followed(
    v: index::IndexView,
    path: Seq<char>,
    content: Option<Seq<char>>,
    list: Seq<symbols::SymbolView>,
    disk: Set<Seq<char>>,
)
    requires
        laws::sound(v),
    ensures
        ({
            let n = paths::normal(path);
            let w = watch::applied(v, EventView::VaultNoteChanged(path), content, list, disk);
            match content {
                Some(s) => w.vault_notes.entries.contains_key(n) && w.vault_notes.entries[n] == notes::note_in(
                    path,
                    s,
                ) && changing::same_notes_but(v, w, n) && linking::are_due(
                    w,
                    notes::note_in(path, s),
                    disk,
                    update::refs_from(w, n),
                ),
                None => w == v,
            }
        }),
        ({
            let n = paths::normal(path);
            let w = watch::applied(v, EventView::VaultNoteRemoved(path), content, list, disk);
            !w.vault_notes.entries.contains_key(n) && changing::same_notes_but(v, w, n)
        }),
        ({
            let f = paths::normal(path);
            let w = watch::applied(v, EventView::CodeFileChanged(path), content, list, disk);
            if content is Some && symbols::refused(path, content->0) is None {
                w.code_symbols.entries.contains_key(f) && w.code_symbols.entries[f] == list
                    && changing::same_code_but(v, w, f)
            } else {
                w == v
            }
        }),
        ({
            let f = paths::normal(path);
            let w = watch::applied(v, EventView::CodeFileRemoved(path), content, list, disk);
            !w.code_symbols.entries.contains_key(f) && w.removed.contains(f) && changing::same_code_but(v, w, f)
        }),
{
    let n = paths::normal(path);
    let s = (Seq::<char>::empty(), Seq::<char>::empty());
    let d = index::DocView {
        note_path: n,
        note_title: Seq::empty(),
        note_type: Seq::empty(),
        context: Seq::empty(),
        confidence: index::MatchConfidence::Exact,
    };
    if let Some(t) = content {
        let note = notes::note_in(path, t);
        changing::law_note_change_takes_note(v, note, disk, s, d);
        linking::law_reindexed_note_has_its_links(v, note, disk);
    }
    changing::law_note_removal_takes_note(v, n, s, d);
    changing::law_code_change_takes_symbols(v, n, list, disk);
    changing::law_code_removal_takes_symbols(v, n, disk);
}

/// No file, or one with nothing but white space in it.
pub open spec fn is_fresh(content: Option<Seq<char>>) -> bool {
    match content {
        None => true,
        Some(s) => forall|i: int| 0 <= i < s.len() ==> text::is_space(#[trigger] s[i]),
    }
}

/// Settings from scratch are those with the wanted hooks and nothing else. A file that says something
/// is not JSON, or is refused, or keeps what it says and gets the hooks; it is never replaced.
pub proof fn law_setup_never_replaces(content: Option<Seq<char>>, r: Result<String, hooks::HooksError>)
    requires
        hooks::is_outcome(content, r),
    ensures
        is_fresh(content) ==> r is Ok && exists|settings: serde_json::Value, after: serde_json::Value|
            {
                &&& json::members(settings) == Some(Map::<Seq<char>, serde_json::Value>::empty())
                &&& #[trigger] hooks::installed(settings, after)
                &&& r->Ok_0@ == json::pretty_text(after)
            },
        !is_fresh(content) ==> match json::parsed(content->0) {
            Err(message) => r is Err && r->Err_0 is NotJson && r->Err_0->NotJson_0@ == message,
            Ok(settings) => match hooks::refusal(settings) {
                Some(why) => r is Err && r->Err_0 == hooks::HooksError::Refused(why),
                None => r is Ok && exists|after: serde_json::Value| #[trigger]
                    hooks::installed(settings, after) && r->Ok_0@ == json::pretty_text(after),
            },
        },
{
    assert(is_fresh(content) <==> content is None || text::is_blank(content->0));
    if is_fresh(content) {
        assert forall|settings: serde_json::Value| #[trigger]
            hooks::starts_from(content, settings) implies hooks::refusal(settings) is None by {
            let none = Map::<Seq<char>, serde_json::Value>::empty();
            assert(!none.contains_key("hooks"@));
            assert(!none.contains_key(hooks::event_key(Event::SessionStart)));
            assert(!none.contains_key(hooks::event_key(Event::PostToolUse)));
        }
    }
}

/// The usage names every option.
pub proof fn law_usage_names_every_option(assistant: Seq<char>, settings: Seq<char>, flag: Seq<char>)
    requires
        !(commands::command_for(seq![flag]) is Unknown),
    ensures
        text::occurs_in(flag, commands::usage(assistant, settings)),
{
    law_first_word_is_the_command(seq![flag]);
    assert(is_option(flag));
    let a = "USAGE:
    doctrack-mcp [OPTION]

With no arguments, starts the MCP server on stdio — this is how "@;
    let b = "
launches it. Each OPTION below runs a single one-shot command and exits.

OPTIONS:
    --check-impact <FILE>     Report vault notes affected by changes to FILE
    --validate-note <NOTE>    Check a vault note for stale refs / broken wikilinks
    --coverage                Print a one-line vault coverage summary
    --setup-hooks             Install "@;
    let c = " hooks into "@;
    let d = "
    --update                  Reinstall doctrack binaries from GitHub main
    -V, --version             Print version and git hash
    -h, --help                Print this help

ENVIRONMENT:
    DOCTRACK_ROOT             Project root (defaults to the current directory)"@;
    let whole = commands::usage(assistant, settings);
    assert(whole =~= (a + assistant) + b + (assistant + c + settings + d));
    assert(whole =~= (a + assistant + b + assistant + c + settings) + d + Seq::<char>::empty());
    reveal_strlit("--check-impact");
    reveal_strlit("--validate-note");
    reveal_strlit("--coverage");
    reveal_strlit("--setup-hooks");
    reveal_strlit("--update");
    reveal_strlit("--version");
    reveal_strlit("-V");
    reveal_strlit("--help");
    reveal_strlit("-h");
    if takes_argument(flag) || flag == "--coverage"@ || flag == "--setup-hooks"@ {
        reveal_strlit("
launches it. Each OPTION below runs a single one-shot command and exits.

OPTIONS:
    --check-impact <FILE>     Report vault notes affected by changes to FILE
    --validate-note <NOTE>    Check a vault note for stale refs / broken wikilinks
    --coverage                Print a one-line vault coverage summary
    --setup-hooks             Install ");
        if flag == "--check-impact"@ {
            assert(b.subrange(88, 102) =~= flag);
            lemma_within(a + assistant, b, assistant + c + settings + d, flag, 88);
        } else if flag == "--validate-note"@ {
            assert(b.subrange(165, 180) =~= flag);
            lemma_within(a + assistant, b, assistant + c + settings + d, flag, 165);
        } else if flag == "--coverage"@ {
            assert(b.subrange(248, 258) =~= flag);
            lemma_within(a + assistant, b, assistant + c + settings + d, flag, 248);
        } else {
            assert(b.subrange(318, 331) =~= flag);
            lemma_within(a + assistant, b, assistant + c + settings + d, flag, 318);
        }
    } else {
        reveal_strlit("
    --update                  Reinstall doctrack binaries from GitHub main
    -V, --version             Print version and git hash
    -h, --help                Print this help

ENVIRONMENT:
    DOCTRACK_ROOT             Project root (defaults to the current directory)");
        let front = a + assistant + b + assistant + c + settings;
        if flag == "--update"@ {
            assert(d.subrange(5, 13) =~= flag);
            lemma_within(front, d, Seq::empty(), flag, 5);
        } else if flag == "--version"@ {
            assert(d.subrange(84, 93) =~= flag);
            lemma_within(front, d, Seq::empty(), flag, 84);
        } else if flag == "-V"@ {
            assert(d.subrange(80, 82) =~= flag);
            lemma_within(front, d, Seq::empty(), flag, 80);
        } else if flag == "--help"@ {
            assert(d.subrange(141, 147) =~= flag);
            lemma_within(front, d, Seq::empty(), flag, 141);
        } else {
            assert(d.subrange(137, 139) =~= flag);
            lemma_within(front, d, Seq::empty(), flag, 137);
        }
    }
}

proof fn lemma_within(front: Seq<char>, mid: Seq<char>, back: Seq<char>, part: Seq<char>, at: int)
    requires
        0 <= at,
        at + part.len() <= mid.len(),
        mid.subrange(at, at + part.len()) == part,
    ensures
        text::occurs_in(part, front + mid + back),
{
    let whole = front + mid + back;
    let k = front.len() + at;
    assert(whole.subrange(k, k + part.len()) =~= mid.subrange(at, at + part.len()));
    assert(text::occurs_at(whole, part, k));
}

/// Printing ASCII alone.
pub open spec fn is_printing(s: Seq<char>) -> bool {
    forall|i: int| 0 <= i < s.len() ==> ' ' <= #[trigger] s[i] <= '~'
}

/// A title of ordinary length and a file with a name of ordinary length, where one of the two is
/// printing ASCII.
pub open spec fn is_ordinary(title: Seq<char>, file: Seq<char>) -> bool {
    paths::stem_of(file) matches Some(stem) ==> title.len() <= 131_073 && stem.len() <= 2_520 && (is_printing(
        title,
    ) || is_printing(stem))
}

proof fn lemma_ordinary(title: Seq<char>, file: Seq<char>)
    requires
        is_ordinary(title, file),
    ensures
        matching::file_scorable(title, file),
{
    assert forall|c: char| ' ' <= c <= '~' implies !#[trigger] fuzzy::is_accented(c) && !fuzzy::folds_twice(c) by {}
    if let Some(stem) = paths::stem_of(file) {
        if is_printing(title) {
            assert forall|i: int| 0 <= i < title.len() implies !fuzzy::is_accented(#[trigger] title[i]) by {
                let c: char = title[i];
                assert(' ' <= c <= '~');
            }
            assert(fuzzy::is_plain(title));
        } else {
            assert forall|i: int| 0 <= i < stem.len() implies !fuzzy::folds_twice(#[trigger] stem[i]) by {
                let c: char = stem[i];
                assert(' ' <= c <= '~');
                assert(!fuzzy::is_accented(c));
            }
            assert(fuzzy::folds_once(stem));
        }
    }
}

/// Ordinary changes are followed. A removal always is, and so is a change of a file that cannot be
/// read. So are a note whose title is ordinary beside every source file, and a source file of ordinary
/// size whose name is ordinary beside the title of every note.
pub proof fn law_ordinary_change_is_accepted(v: index::IndexView, path: Seq<char>, content: Option<Seq<char>>)
    ensures
        watch::keeps_scorable(v, EventView::VaultNoteRemoved(path), content),
        watch::keeps_scorable(v, EventView::CodeFileRemoved(path), content),
        content is None ==> watch::keeps_scorable(v, EventView::VaultNoteChanged(path), content)
            && watch::keeps_scorable(v, EventView::CodeFileChanged(path), content),
        content matches Some(s) ==> (forall|i: int|
            0 <= i < v.code_symbols.order.len() ==> is_ordinary(
                notes::note_in(path, s).title,
                #[trigger] v.code_symbols.order[i],
            )) ==> watch::keeps_scorable(v, EventView::VaultNoteChanged(path), content),
        content matches Some(s) ==> vstd::utf8::encode_utf8(s).len() < u32::MAX && (forall|k: Seq<char>| #[trigger]
            v.vault_notes.entries.contains_key(k) ==> is_ordinary(
                v.vault_notes.entries[k].title,
                paths::normal(path),
            )) ==> watch::keeps_scorable(v, EventView::CodeFileChanged(path), content),
{
    if let Some(s) = content {
        let title = notes::note_in(path, s).title;
        if forall|i: int|
            0 <= i < v.code_symbols.order.len() ==> is_ordinary(title, #[trigger] v.code_symbols.order[i]) {
            assert forall|i: int| 0 <= i < v.code_symbols.order.len() implies matching::file_scorable(
                title,
                #[trigger] v.code_symbols.order[i],
            ) by {
                lemma_ordinary(title, v.code_symbols.order[i]);
            }
        }
        if forall|k: Seq<char>| #[trigger]
            v.vault_notes.entries.contains_key(k) ==> is_ordinary(
                v.vault_notes.entries[k].title,
                paths::normal(path),
            ) {
            assert forall|k: Seq<char>| #[trigger] v.vault_notes.has(k) implies matching::file_scorable(
                v.vault_notes.at(k).title,
                paths::normal(path),
            ) by {
                assert(v.vault_notes.entries.contains_key(k));
                lemma_ordinary(v.vault_notes.at(k).title, paths::normal(path));
            }
        }
    }
}

/// The symbols that are recorded for a source file are those that its text yields: after a change of
/// the file, and after a build. A file that cannot be read, or not parsed, has none to record.
pub proof fn law_recorded_symbols_are_yielded(
    path: Seq<char>,
    content: Option<Seq<char>>,
    list: Seq<symbols::SymbolView>,
    source: project::SourceView,
    read: project::ReadView,
)
    ensures
        watch::is_extracted(EventView::CodeFileChanged(path), content, list) && content is Some
            && symbols::refused(path, content->0) is None ==> symbols::yields(path, content->0, list),
        project::is_read(source, read) ==> {
            &&& read.path == source.path
            &&& read.symbols is Some <==> source.text is Some && symbols::refused(source.path, source.text->0) is None
            &&& read.symbols is Some ==> symbols::yields(source.path, source.text->0, read.symbols->0)
        },
{
}

} // verus!
