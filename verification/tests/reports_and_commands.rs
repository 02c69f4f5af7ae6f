//! Reports, the command line, changes on disk, and what the language server offers.
use doctrack::commands::{help_text, parse_args, require_arg, update_text, version_text, Command};
use doctrack::features::{server_features, SyncKind};
use doctrack::index::{Disk, Index};
use doctrack::notes::parse_note;
use doctrack::project::SourceFile;
use doctrack::reports::{Coverage, Validation};
use doctrack::watch::{classify, is_markdown, WatchEvent};

/// An index of `/p` with the given sources and notes, where `disk` exists.
fn index(sources: &[(&str, &str)], notes: &[(&str, &str)], disk: &Disk) -> Index {
    let mut index = Index::new("/p", "/p/.doctrack");
    index.build_file_lookup(&sources.iter().map(|(p, _)| p.to_string()).collect());
    index.add_notes(&notes.iter().map(|(p, t)| parse_note(p, t)).collect());
    let read: Vec<SourceFile> = sources
        .iter()
        .map(|(p, t)| SourceFile {
            path: p.to_string(),
            text: Some(t.to_string()),
        })
        .collect();
    index.build(&read, disk);
    index
}

fn disk(paths: &[&str]) -> Disk {
    let mut disk = Disk::new();
    for p in paths {
        disk.add(p);
    }
    disk
}

#[test]
fn impact_names_the_notes_that_speak_of_a_file() {
    let d = disk(&["/p/src/a.rs"]);
    let i = index(
        &[("/p/src/a.rs", "fn alpha() {}\nfn beta() {}\n")],
        &[
            (
                "/p/.doctrack/x.md",
                "---\ntype: feature\nfiles:\n  - src/a.rs:0\n---\n# X\n",
            ),
            ("/p/.doctrack/y.md", "---\ntype: concept\n---\n# Y\n\n`beta`\n"),
            ("/p/.doctrack/z.md", "# unrelated\n"),
        ],
        &d,
    );
    assert_eq!(
        i.check_impact("src/a.rs").unwrap(),
        "Doctrack: changes to `src/a.rs` may affect 3 vault note(s):\n\
         \x20 - X [feature] references `alpha`\n\
         \x20 - Y [concept] references `beta`\n\
         \x20 - X [feature] has file reference to `src/a.rs`"
    );
    assert_eq!(i.check_impact("src/b.rs"), None);
}

#[test]
fn impact_lines_are_not_repeated() {
    let d = disk(&["/p/src/a.rs"]);
    let i = index(
        &[("/p/src/a.rs", "fn alpha() {}\n")],
        &[
            ("/p/.doctrack/x.md", "# Same\n\n`alpha`\n"),
            ("/p/.doctrack/y.md", "# Same\n\n`alpha`\n"),
        ],
        &d,
    );
    assert_eq!(
        i.check_impact("src/a.rs").unwrap(),
        "Doctrack: changes to `src/a.rs` may affect 1 vault note(s):\n\
         \x20 - Same [note] references `alpha`"
    );
}

#[test]
fn guesses_do_not_count_as_impact_or_coverage() {
    let i = index(
        &[("/p/src/session_manager.rs", "fn open() {}\n")],
        &[("/p/.doctrack/x.md", "# session_manager\n")],
        &Disk::new(),
    );
    assert_eq!(i.symbols_for_note("/p/.doctrack/x.md").len(), 1);
    assert_eq!(i.check_impact("src/session_manager.rs"), None);
    assert_eq!(
        i.coverage(),
        Coverage {
            notes: 1,
            code_files: 1,
            linked: 0,
            links: 0
        }
    );
}

#[test]
fn a_note_is_checked_for_stale_and_broken_references() {
    let d = disk(&["/p/src/a.rs", "/p/.doctrack/known.md"]);
    let i = index(
        &[
            ("/p/src/a.rs", "fn a() {}\n"),
            ("/p/one/b.rs", "fn b() {}\n"),
            ("/p/two/b.rs", "fn b() {}\n"),
        ],
        &[
            (
                "/p/.doctrack/x.md",
                "---\nfiles:\n  - src/a.rs\n  - src/gone.rs\n  - b.rs\n---\n# X\n\n\
                 [[known]] [[KNOWN TITLE|shown]] [[missing#part]]\n",
            ),
            ("/p/.doctrack/y.md", "# Known title\n"),
        ],
        &d,
    );
    let report = "Doctrack: x.md has 3 issue(s):\n\
                  \x20 - STALE: `src/gone.rs` not found in project\n\
                  \x20 - AMBIGUOUS: `b.rs` resolves to 2 files\n\
                  \x20 - BROKEN WIKILINK: [[missing]]";
    assert_eq!(
        i.validate_note("x.md", &d),
        Validation::Issues(report.to_string())
    );
    assert_eq!(i.validate_note("y.md", &d), Validation::Clean);
    assert_eq!(i.validate_note("z.md", &d), Validation::NotFound);
    assert_eq!(i.wikilink_path("known"), "/p/.doctrack/known.md");
}

#[test]
fn coverage_counts_traceable_links() {
    let d = disk(&["/p/src/a.rs"]);
    let i = index(
        &[
            ("/p/src/a.rs", "fn alpha() {}\nfn beta() {}\n"),
            ("/p/src/b.rs", "fn gamma() {}\n"),
        ],
        &[
            ("/p/.doctrack/x.md", "---\nfiles:\n  - src/a.rs\n---\n# X\n"),
            ("/p/.doctrack/y.md", "# Y\n\n`alpha` and `gamma`\n"),
            ("/p/.doctrack/z.md", "# Zz\n"),
        ],
        &d,
    );
    let c = i.coverage();
    assert_eq!(
        c,
        Coverage {
            notes: 3,
            code_files: 2,
            linked: 2,
            links: 4
        }
    );
    assert!(c.linked <= c.notes);
    assert_eq!(
        c.summary(66),
        "Doctrack: 3 notes, 2 code files, 4 links, 66% coverage"
    );
}

fn args(words: &[&str]) -> Vec<String> {
    words.iter().map(|w| w.to_string()).collect()
}

#[test]
fn invocations_are_recognised() {
    assert_eq!(parse_args(&args(&[])), Command::Serve);
    assert_eq!(
        parse_args(&args(&["--check-impact", "src/a.rs"])),
        Command::CheckImpact("src/a.rs".to_string())
    );
    assert_eq!(
        parse_args(&args(&["--validate-note", "x.md", "more"])),
        Command::ValidateNote("x.md".to_string())
    );
    assert_eq!(parse_args(&args(&["--coverage"])), Command::Coverage);
    assert_eq!(parse_args(&args(&["--setup-hooks"])), Command::SetupHooks);
    assert_eq!(parse_args(&args(&["--version"])), Command::Version);
    assert_eq!(parse_args(&args(&["-V"])), Command::Version);
    assert_eq!(parse_args(&args(&["--help"])), Command::Help);
    assert_eq!(parse_args(&args(&["-h"])), Command::Help);
    assert_eq!(parse_args(&args(&["--update"])), Command::Update);
    assert_eq!(parse_args(&args(&["--coverage"])).complaint(), None);
}

#[test]
fn malformed_invocations_fail_loudly() {
    let c = parse_args(&args(&["--covrage"]));
    assert_eq!(c, Command::Unknown("--covrage".to_string()));
    assert_eq!(
        c.complaint().unwrap(),
        "doctrack-mcp: unrecognised option `--covrage`\n"
    );
    for words in [&["--check-impact"][..], &["--check-impact", "--coverage"][..]] {
        let c = parse_args(&args(words));
        assert_eq!(c, Command::MissingArgument("--check-impact".to_string()));
        assert_eq!(
            c.complaint().unwrap(),
            "doctrack-mcp: `--check-impact` requires an argument\n"
        );
    }
    assert_eq!(require_arg(&args(&["--validate-note", "-x"])), None);
    assert_eq!(
        require_arg(&args(&["--validate-note", "x-"])),
        Some("x-".to_string())
    );
}

#[test]
fn the_program_tells_its_version_and_usage() {
    assert_eq!(version_text("0.1.0", "abc123"), "doctrack-mcp 0.1.0 (abc123)");
    let help = help_text("0.1.0", "abc123", "An index", "The Helper", ".helper/settings.json");
    assert!(help.starts_with(
        "doctrack-mcp 0.1.0 (abc123)\n\nAn index\n\nUSAGE:\n    doctrack-mcp [OPTION]\n"
    ));
    assert!(help.ends_with(
        "    DOCTRACK_ROOT             Project root (defaults to the current directory)"
    ));
    assert!(help.contains("stdio — this is how The Helper\nlaunches it. Each OPTION"));
    assert!(help.contains(
        "    --setup-hooks             Install The Helper hooks into .helper/settings.json\n    --update "
    ));
    assert_eq!(
        update_text(true, true, "The Helper"),
        "Both binaries updated successfully.\nRestart The Helper and your editor for changes to take effect."
    );
    for (m, l) in [(true, false), (false, true), (false, false)] {
        assert_eq!(
            update_text(m, l, "The Helper"),
            "Some installations may have failed — check output above."
        );
    }
}

#[test]
fn changes_are_told_apart() {
    let e = |path: &str, exists: bool| classify("/p/.doctrack", path, exists);
    assert_eq!(
        e("/p/.doctrack/x.md", true),
        Some(WatchEvent::VaultNoteChanged("/p/.doctrack/x.md".to_string()))
    );
    assert_eq!(
        e("/p/.doctrack/x.md", false),
        Some(WatchEvent::VaultNoteRemoved("/p/.doctrack/x.md".to_string()))
    );
    assert_eq!(
        e("/p/src/a.rs", true),
        Some(WatchEvent::CodeFileChanged("/p/src/a.rs".to_string()))
    );
    assert_eq!(
        e("/p/src/a.rs", false),
        Some(WatchEvent::CodeFileRemoved("/p/src/a.rs".to_string()))
    );
    // The vault holds notes alone, and the editor's own files are none.
    assert_eq!(e("/p/.doctrack/a.rs", true), None);
    assert_eq!(e("/p/.doctrack/.obsidian/x.md", true), None);
    assert_eq!(e("/p/.doctrack/.trash/x.md", false), None);
    // Elsewhere notes mean nothing; a lookalike directory is elsewhere.
    assert_eq!(e("/p/README.md", true), None);
    assert_eq!(e("/p/.doctrack2/x.md", true), None);
    assert_eq!(
        e("/p/.doctrack2/a.rs", true).clone(),
        Some(WatchEvent::CodeFileChanged("/p/.doctrack2/a.rs".to_string()))
    );
}

#[test]
fn notes_are_told_by_their_extension() {
    assert!(is_markdown("/p/x.md"));
    assert!(!is_markdown("/p/x.MD"));
    assert!(!is_markdown("/p/md"));
    assert!(!is_markdown("/p/.md"));
}

#[test]
fn the_server_asks_for_no_changes_while_typing() {
    let f = server_features();
    assert!(f.hover && f.definition && f.open_close);
    assert_eq!(f.change, SyncKind::Nothing);
    assert_eq!(f.save_with_text, Some(false));
}
