//! The command line: what an invocation asks for, and what the program says of itself.
use crate::text;
use vstd::prelude::*;
use vstd::string::*;

verus! {

/// What an invocation asks for.
#[derive(Debug, PartialEq, Eq)]
pub enum Command {
    /// Start the server on standard input and output.
    Serve,
    /// Report the notes that a change of a file may affect.
    CheckImpact(String),
    /// Check a note for stale references and broken wikilinks.
    ValidateNote(String),
    /// Print the coverage summary.
    Coverage,
    /// Install the hooks.
    SetupHooks,
    /// Print the version.
    Version,
    /// Print the usage.
    Help,
    /// Install the program anew.
    Update,
    /// An option that needs an argument was given none.
    MissingArgument(String),
    /// There is no such option.
    Unknown(String),
}

/// The contents of a [`Command`].
#[verifier::ext_equal]
pub enum CommandView {
    Serve,
    CheckImpact(Seq<char>),
    ValidateNote(Seq<char>),
    Coverage,
    SetupHooks,
    Version,
    Help,
    Update,
    MissingArgument(Seq<char>),
    Unknown(Seq<char>),
}

impl DeepView for Command {
    type V = CommandView;

    open spec fn deep_view(&self) -> CommandView {
        match self {
            Command::Serve => CommandView::Serve,
            Command::CheckImpact(file) => CommandView::CheckImpact(file@),
            Command::ValidateNote(note) => CommandView::ValidateNote(note@),
            Command::Coverage => CommandView::Coverage,
            Command::SetupHooks => CommandView::SetupHooks,
            Command::Version => CommandView::Version,
            Command::Help => CommandView::Help,
            Command::Update => CommandView::Update,
            Command::MissingArgument(flag) => CommandView::MissingArgument(flag@),
            Command::Unknown(flag) => CommandView::Unknown(flag@),
        }
    }
}

/// The argument of an option: the word behind it, unless that is an option too.
pub open spec fn argument(args: Seq<Seq<char>>) -> Option<Seq<char>> {
    if args.len() > 1 && !text::begins_with(args[1], "-"@) {
        Some(args[1])
    } else {
        None
    }
}

/// What `args` ask for. Anything that is not a well-formed invocation is an error, so that a
/// mistyped option does not start a server that waits for a handshake that never comes.
pub open spec fn command_for(args: Seq<Seq<char>>) -> CommandView {
    if args.len() == 0 {
        CommandView::Serve
    } else {
        let flag = args[0];
        if flag == "--check-impact"@ {
            match argument(args) {
                Some(file) => CommandView::CheckImpact(file),
                None => CommandView::MissingArgument(flag),
            }
        } else if flag == "--validate-note"@ {
            match argument(args) {
                Some(note) => CommandView::ValidateNote(note),
                None => CommandView::MissingArgument(flag),
            }
        } else if flag == "--coverage"@ {
            CommandView::Coverage
        } else if flag == "--setup-hooks"@ {
            CommandView::SetupHooks
        } else if flag == "--version"@ || flag == "-V"@ {
            CommandView::Version
        } else if flag == "--help"@ || flag == "-h"@ {
            CommandView::Help
        } else if flag == "--update"@ {
            CommandView::Update
        } else {
            CommandView::Unknown(flag)
        }
    }
}

/// The argument of the option that comes first.
pub fn require_arg(args: &Vec<String>) -> (r: Option<String>)
    ensures
        r.deep_view() == argument(args.deep_view()),
{
    if args.len() > 1 {
        assert(args.deep_view()[1] == args@[1]@);
        if !text::starts_with_text(args[1].as_str(), "-") {
            return Some(args[1].clone());
        }
    }
    None
}

/// What the words of a command line, without the program's name, ask for.
pub fn parse_args(args: &Vec<String>) -> (r: Command)
    ensures
        r.deep_view() == command_for(args.deep_view()),
{
    if args.len() == 0 {
        return Command::Serve;
    }
    assert(args.deep_view()[0] == args@[0]@);
    let flag = args[0].as_str();
    if text::same(flag, "--check-impact") {
        match require_arg(args) {
            Some(file) => Command::CheckImpact(file),
            None => Command::MissingArgument(args[0].clone()),
        }
    } else if text::same(flag, "--validate-note") {
        match require_arg(args) {
            Some(note) => Command::ValidateNote(note),
            None => Command::MissingArgument(args[0].clone()),
        }
    } else if text::same(flag, "--coverage") {
        Command::Coverage
    } else if text::same(flag, "--setup-hooks") {
        Command::SetupHooks
    } else if text::same(flag, "--version") || text::same(flag, "-V") {
        Command::Version
    } else if text::same(flag, "--help") || text::same(flag, "-h") {
        Command::Help
    } else if text::same(flag, "--update") {
        Command::Update
    } else {
        Command::Unknown(args[0].clone())
    }
}

/// What is said of a malformed invocation. Nothing of any other.
pub open spec fn complaint(c: CommandView) -> Option<Seq<char>> {
    match c {
        CommandView::MissingArgument(flag) => Some("doctrack-mcp: `"@ + flag + "` requires an argument\n"@),
        CommandView::Unknown(flag) => Some("doctrack-mcp: unrecognised option `"@ + flag + "`\n"@),
        _ => None,
    }
}

impl Command {
    /// What is wrong with the invocation, where something is.
    pub fn complaint(&self) -> (r: Option<String>)
        ensures
            r.deep_view() == complaint(self.deep_view()),
    {
        match self {
            Command::MissingArgument(flag) => {
                let mut out = "doctrack-mcp: `".to_string();
                out.append(flag.as_str());
                out.append("` requires an argument\n");
                Some(out)
            },
            Command::Unknown(flag) => {
                let mut out = "doctrack-mcp: unrecognised option `".to_string();
                out.append(flag.as_str());
                out.append("`\n");
                Some(out)
            },
            _ => None,
        }
    }
}

/// The program's name and version, with the revision that it was built from.
pub open spec fn version_line(version: Seq<char>, revision: Seq<char>) -> Seq<char> {
    "doctrack-mcp "@ + version + " ("@ + revision + ")"@
}

/// The program's name and version, with the revision that it was built from.
pub fn version_text(version: &str, revision: &str) -> (r: String)
    ensures
        r@ == version_line(version@, revision@),
{
    let mut out = "doctrack-mcp ".to_string();
    out.append(version);
    out.append(" (");
    out.append(revision);
    out.append(")");
    out
}

/// How the program is used, where `assistant` launches it and keeps its hooks in `settings`.
pub open spec fn usage(assistant: Seq<char>, settings: Seq<char>) -> Seq<char> {
    "USAGE:
    doctrack-mcp [OPTION]

With no arguments, starts the MCP server on stdio — this is how "@ + assistant + "
launches it. Each OPTION below runs a single one-shot command and exits.

OPTIONS:
    --check-impact <FILE>     Report vault notes affected by changes to FILE
    --validate-note <NOTE>    Check a vault note for stale refs / broken wikilinks
    --coverage                Print a one-line vault coverage summary
    --setup-hooks             Install "@ + assistant + " hooks into "@ + settings + "
    --update                  Reinstall doctrack binaries from GitHub main
    -V, --version             Print version and git hash
    -h, --help                Print this help

ENVIRONMENT:
    DOCTRACK_ROOT             Project root (defaults to the current directory)"@
}

/// The help of the program, where `assistant` launches it and keeps its hooks in `settings`.
pub fn help_text(
    version: &str,
    revision: &str,
    description: &str,
    assistant: &str,
    settings: &str,
) -> (r: String)
    ensures
        r@ == version_line(version@, revision@) + "\n\n"@ + description@ + "\n\n"@ + usage(
            assistant@,
            settings@,
        ),
{
    let mut out = version_text(version, revision);
    out.append("\n\n");
    out.append(description);
    out.append("\n\n");
    let ghost opening = out@;
    out.append(
        "USAGE:
    doctrack-mcp [OPTION]

With no arguments, starts the MCP server on stdio — this is how ",
    );
    out.append(assistant);
    out.append(
        "
launches it. Each OPTION below runs a single one-shot command and exits.

OPTIONS:
    --check-impact <FILE>     Report vault notes affected by changes to FILE
    --validate-note <NOTE>    Check a vault note for stale refs / broken wikilinks
    --coverage                Print a one-line vault coverage summary
    --setup-hooks             Install ",
    );
    out.append(assistant);
    out.append(" hooks into ");
    out.append(settings);
    out.append(
        "
    --update                  Reinstall doctrack binaries from GitHub main
    -V, --version             Print version and git hash
    -h, --help                Print this help

ENVIRONMENT:
    DOCTRACK_ROOT             Project root (defaults to the current directory)",
    );
    assert(out@ =~= opening + usage(assistant@, settings@));
    out
}

/// What is said after an update, where `server` and `editor` say whether the two programs were
/// installed, and `assistant` is what launches the server.
pub open spec fn update_line(server: bool, editor: bool, assistant: Seq<char>) -> Seq<char> {
    if server && editor {
        "Both binaries updated successfully.\nRestart "@ + assistant
            + " and your editor for changes to take effect."@
    } else {
        "Some installations may have failed — check output above."@
    }
}

/// What is said after an update, where `server` and `editor` say whether the two programs were
/// installed, and `assistant` is what launches the server.
pub fn update_text(server: bool, editor: bool, assistant: &str) -> (r: String)
    ensures
        r@ == (if server && editor {
            "Both binaries updated successfully.\nRestart "@ + assistant@
                + " and your editor for changes to take effect."@
        } else {
            "Some installations may have failed — check output above."@
        }),
        r@ == update_line(server, editor, assistant@),
{
    if server && editor {
        let mut out = "Both binaries updated successfully.\nRestart ".to_string();
        out.append(assistant);
        out.append(" and your editor for changes to take effect.");
        out
    } else {
        "Some installations may have failed — check output above.".to_string()
    }
}

} // verus!
