//! End-to-end tests over a project and its vault: building the index, resolving references,
//! linking, and keeping links correct as files change underneath it.
use doctrack::index::{
    max_indexed_files, Disk, Index, MatchConfidence, DEFAULT_MAX_INDEXED_FILES,
};
use doctrack::notes::parse_note;
use doctrack::project::{enters, text_fits, walks_into, SourceFile};
use doctrack::symbols::CodeSymbol;
use doctrack::vault::{is_vault_internal, FileRef, VaultNote};
use doctrack::watch::{classify, is_markdown, WatchEvent};

/// A project with a `.doctrack/` vault, held in memory: paths and contents.
struct Fixture {
    root: String,
    files: Vec<(String, String)>,
}

impl Fixture {
    fn new(name: &str) -> Self {
        Fixture {
            root: format!("/work/doctrack-test-{name}"),
            files: Vec::new(),
        }
    }

    fn path(&self, rel: &str) -> String {
        format!("{}/{rel}", self.root)
    }

    fn write(&mut self, rel: &str, contents: &str) -> String {
        let path = self.path(rel);
        self.files.retain(|(p, _)| *p != path);
        self.files.push((path.clone(), contents.to_string()));
        path
    }

    fn note(&mut self, rel: &str, contents: &str) -> String {
        self.write(&format!(".doctrack/{rel}"), contents)
    }

    fn remove(&mut self, path: &str) {
        self.files.retain(|(p, _)| p != path);
    }

    fn read(&self, path: &str) -> Option<String> {
        self.files
            .iter()
            .find(|(p, _)| p == path)
            .map(|(_, text)| text.clone())
    }

    /// The files that a walk over the project reaches.
    fn walked(&self) -> Vec<String> {
        let prefix = format!("{}/", self.root);
        self.files
            .iter()
            .filter(|(p, _)| {
                let ends = p.match_indices('/').map(|(i, _)| i);
                ends.filter(|i| *i + 1 >= prefix.len()).all(|i| enters(&self.root, &p[..i]))
            })
            .map(|(p, _)| p.clone())
            .collect()
    }

    fn notes(&self) -> Vec<VaultNote> {
        let vault = format!("{}/.doctrack/", self.root);
        self.files
            .iter()
            .filter(|(p, _)| p.starts_with(&vault) && is_markdown(p) && !is_vault_internal(p))
            .map(|(p, text)| parse_note(p, text))
            .collect()
    }

    fn disk(&self) -> Disk {
        let mut disk = Disk::new();
        for (p, _) in &self.files {
            disk.add(p);
        }
        disk
    }

    fn index_with_limit(&self, limit: usize) -> Index {
        let mut index = Index::new(&self.root, &self.path(".doctrack"));
        index.build_file_lookup(&self.walked());
        index.add_notes(&self.notes());
        let mut disk = Disk::new();
        for p in index.probes() {
            if self.read(&p).is_some() {
                disk.add(&p);
            }
        }
        let found = index.collect_code_files(limit, &disk);
        let sources: Vec<SourceFile> = found
            .files
            .iter()
            .map(|p| SourceFile {
                path: p.clone(),
                text: self.read(p),
            })
            .collect();
        index.build(&sources, &disk);
        index
    }

    fn index(&self) -> Index {
        self.index_with_limit(20_000)
    }

    fn reindex_note(&self, index: &mut Index, path: &str) {
        index.reindex_note(path, &self.read(path).unwrap(), &self.disk());
    }

    fn reindex_code_file(&self, index: &mut Index, path: &str) {
        let source = self.read(path).unwrap();
        assert!(index.can_take(path) && text_fits(&source));
        index
            .reindex_code_file(path, &source, &self.disk())
            .unwrap();
    }
}

fn confidences(index: &Index, note: &str) -> Vec<MatchConfidence> {
    let mut c: Vec<_> = index
        .symbols_for_note(note)
        .into_iter()
        .map(|r| r.confidence)
        .collect();
    c.sort();
    c.dedup();
    c
}

fn linked_symbol_names(index: &Index, note: &str) -> Vec<String> {
    let mut names: Vec<_> = index
        .symbols_for_note(note)
        .into_iter()
        .map(|r| r.symbol_id.name)
        .collect();
    names.sort();
    names
}

const SESSION_RS: &str = "\
pub struct SessionManager {
    id: u32,
}

pub fn authenticate(user: &str) -> bool {
    !user.is_empty()
}
";

#[test]
fn builds_index_and_links_frontmatter_refs_exactly() {
    let mut fx = Fixture::new("exact");
    fx.write("src/auth/session.rs", SESSION_RS);
    let note = fx.note(
        "features/auth.md",
        "---\ntype: feature\nfiles:\n  - src/auth/session.rs\n---\n\n# Authentication\n\nHandles login.\n",
    );

    let index = fx.index();

    assert_eq!(index.vault_notes.len(), 1);
    assert_eq!(
        index.code_symbols.len(),
        1,
        "the referenced file is indexed"
    );
    assert_eq!(
        linked_symbol_names(&index, &note),
        vec!["SessionManager", "authenticate"]
    );
    assert_eq!(confidences(&index, &note), vec![MatchConfidence::Exact]);

    let docs = index.docs_for_symbol(&fx.path("src/auth/session.rs"), "authenticate");
    assert_eq!(docs.len(), 1);
    assert_eq!(docs[0].note_title, "Authentication");
    assert!(docs[0].confidence.is_verified());
}

#[test]
fn a_file_referenced_twice_produces_one_link() {
    let mut fx = Fixture::new("dupes");
    fx.write("src/auth/session.rs", SESSION_RS);
    fx.note(
        "features/auth.md",
        "---\ntype: feature\nfiles:\n  - src/auth/session.rs\n---\n\n# Auth\n\nSee `src/auth/session.rs` for details.\n",
    );

    let index = fx.index();
    let docs = index.docs_for_symbol(&fx.path("src/auth/session.rs"), "SessionManager");
    assert_eq!(docs.len(), 1, "expected one link, got {docs:#?}");
}

#[test]
fn backtick_identifiers_link_strongly_and_fenced_blocks_do_not() {
    let mut fx = Fixture::new("strong");
    fx.write("src/auth/session.rs", SESSION_RS);
    fx.write("src/other.rs", "pub fn phantom() {}\n");

    // `other.rs` is only reachable because a note references it by path;
    // `phantom` is named only inside a fenced block and must not link.
    let note = fx.note(
        "components/session.md",
        "---\ntype: component\nfiles:\n  - src/other.rs\n---\n\n# Session\n\n\
         Delegates to `SessionManager`.\n\n\
         ```rust\nlet x = phantom();\n```\n",
    );

    let index = fx.index();
    let names = linked_symbol_names(&index, &note);
    assert!(names.contains(&"SessionManager".to_string()));
    assert!(
        names.contains(&"phantom".to_string()),
        "phantom is linked via the file reference, not the fenced block"
    );

    let phantom_docs = index.docs_for_symbol(&fx.path("src/other.rs"), "phantom");
    assert_eq!(phantom_docs.len(), 1);
    assert_eq!(
        phantom_docs[0].confidence,
        MatchConfidence::Exact,
        "the link came from the file reference; the fenced mention added nothing"
    );

    let session_docs = index.docs_for_symbol(&fx.path("src/auth/session.rs"), "SessionManager");
    assert_eq!(session_docs[0].confidence, MatchConfidence::Strong);
}

#[test]
fn project_file_registry_table_is_indexed() {
    // The `_project.md` convention keeps the registry in a markdown table.
    let mut fx = Fixture::new("registry");
    fx.write("src/auth/session.rs", SESSION_RS);
    let note = fx.note(
        "_project.md",
        "---\ntype: index\n---\n\n# Demo\n\n## File Registry\n\n\
         | Source File | Feature | Component |\n\
         |------------|---------|-----------|\n\
         | src/auth/session.rs | auth | session |\n",
    );

    let index = fx.index();
    assert_eq!(
        linked_symbol_names(&index, &note),
        vec!["SessionManager", "authenticate"],
        "the registry table should be a source of file references"
    );
}

#[test]
fn partial_paths_resolve_without_matching_lookalike_files() {
    let mut fx = Fixture::new("partial");
    fx.write("src/auth/session.rs", SESSION_RS);
    fx.write("src/auth/mysession.rs", "pub fn decoy() {}\n");
    let note = fx.note(
        "features/auth.md",
        "---\ntype: feature\nfiles:\n  - auth/session.rs\n---\n\n# Auth\n",
    );

    let index = fx.index();
    let names = linked_symbol_names(&index, &note);
    assert!(names.contains(&"SessionManager".to_string()));
    assert!(
        !names.contains(&"decoy".to_string()),
        "`auth/session.rs` must not resolve to `auth/mysession.rs`"
    );
}

#[test]
fn stale_reference_resolves_to_nothing() {
    let mut fx = Fixture::new("stale");
    fx.write("src/auth/session.rs", SESSION_RS);
    let note_path = fx.note(
        "features/auth.md",
        "---\ntype: feature\nfiles:\n  - src/auth/deleted.rs\n---\n\n# Auth\n",
    );

    let index = fx.index();
    let note = index.vault_notes.get(&note_path).unwrap();
    assert_eq!(note.file_refs.len(), 1);
    assert!(index
        .resolve_file_ref(&note.file_refs[0], &fx.disk())
        .is_empty());
}

#[test]
fn reindexing_a_note_replaces_its_links() {
    let mut fx = Fixture::new("reindex-note");
    fx.write("src/a.rs", "pub fn alpha() {}\n");
    fx.write("src/b.rs", "pub fn beta() {}\n");
    let note = fx.note(
        "features/x.md",
        "---\ntype: feature\nfiles:\n  - src/a.rs\n  - src/b.rs\n---\n\n# X\n",
    );

    let mut index = fx.index();
    assert_eq!(linked_symbol_names(&index, &note), vec!["alpha", "beta"]);

    // Drop the reference to b.rs.
    fx.note(
        "features/x.md",
        "---\ntype: feature\nfiles:\n  - src/a.rs\n---\n\n# X\n",
    );
    fx.reindex_note(&mut index, &note);

    assert_eq!(linked_symbol_names(&index, &note), vec!["alpha"]);
    assert!(
        index.docs_for_symbol(&fx.path("src/b.rs"), "beta").is_empty(),
        "the dropped reference must not leave a dangling DocLink"
    );
}

#[test]
fn deleting_a_note_clears_its_links() {
    let mut fx = Fixture::new("remove-note");
    fx.write("src/a.rs", "pub fn alpha() {}\n");
    let note = fx.note(
        "features/x.md",
        "---\ntype: feature\nfiles:\n  - src/a.rs\n---\n\n# X\n",
    );

    let mut index = fx.index();
    assert_eq!(
        index.docs_for_symbol(&fx.path("src/a.rs"), "alpha").len(),
        1
    );

    index.remove_note(&note);

    assert!(index.vault_notes.get(&note).is_none());
    assert!(index.symbols_for_note(&note).is_empty());
    assert!(index
        .docs_for_symbol(&fx.path("src/a.rs"), "alpha")
        .is_empty());
}

#[test]
fn renaming_a_symbol_updates_links_in_both_directions() {
    let mut fx = Fixture::new("rename-symbol");
    let code = fx.write("src/a.rs", "pub fn old_name() {}\n");
    let note = fx.note(
        "features/x.md",
        "---\ntype: feature\nfiles:\n  - src/a.rs\n---\n\n# X\n",
    );

    let mut index = fx.index();
    assert_eq!(index.docs_for_symbol(&code, "old_name").len(), 1);
    assert_eq!(index.definitions_of("old_name").len(), 1);

    fx.write("src/a.rs", "pub fn new_name() {}\n");
    fx.reindex_code_file(&mut index, &code);

    assert!(
        index.docs_for_symbol(&code, "old_name").is_empty(),
        "the removed symbol must not keep its documentation link"
    );
    assert!(index.definitions_of("old_name").is_empty());
    assert_eq!(index.docs_for_symbol(&code, "new_name").len(), 1);
    assert_eq!(linked_symbol_names(&index, &note), vec!["new_name"]);
}

#[test]
fn adding_a_symbol_named_in_prose_creates_a_link() {
    let mut fx = Fixture::new("add-symbol");
    let code = fx.write("src/a.rs", "pub fn alpha() {}\n");
    fx.write("src/anchor.rs", "pub fn anchor() {}\n");
    let note = fx.note(
        "features/x.md",
        "---\ntype: feature\nfiles:\n  - src/anchor.rs\n---\n\n# X\n\nWill call `gamma` soon.\n",
    );

    let mut index = fx.index();
    assert!(!linked_symbol_names(&index, &note).contains(&"gamma".to_string()));

    fx.write("src/a.rs", "pub fn alpha() {}\npub fn gamma() {}\n");
    fx.reindex_code_file(&mut index, &code);

    assert_eq!(index.docs_for_symbol(&code, "gamma").len(), 1);
    assert!(linked_symbol_names(&index, &note).contains(&"gamma".to_string()));
}

#[test]
fn removing_a_code_file_clears_its_links() {
    let mut fx = Fixture::new("remove-code");
    let code = fx.write("src/a.rs", "pub fn alpha() {}\n");
    let note = fx.note(
        "features/x.md",
        "---\ntype: feature\nfiles:\n  - src/a.rs\n---\n\n# X\n",
    );

    let mut index = fx.index();
    assert_eq!(index.docs_for_symbol(&code, "alpha").len(), 1);

    fx.remove(&code);
    index.remove_code_file(&code, &fx.disk());

    assert!(index.code_symbols.get(&code).is_none());
    assert!(index.definitions_of("alpha").is_empty());
    assert!(index.docs_for_symbol(&code, "alpha").is_empty());
    assert!(index.symbols_for_note(&note).is_empty());
}

#[test]
fn obsidian_internals_are_not_indexed_as_notes() {
    let mut fx = Fixture::new("obsidian");
    fx.write("src/a.rs", "pub fn alpha() {}\n");
    fx.note("features/x.md", "---\ntype: feature\n---\n\n# X\n");
    fx.note(".obsidian/plugins/some-plugin/README.md", "# Plugin docs\n");
    fx.note(".trash/deleted-note.md", "# Deleted\n");

    let index = fx.index();
    assert_eq!(
        index.vault_notes.len(),
        1,
        "only real notes should be indexed, found: {:#?}",
        (0..index.vault_notes.len())
            .map(|i| index.vault_notes.key_at(i).clone())
            .collect::<Vec<_>>()
    );
}

#[test]
fn unreferenced_source_files_are_indexed_and_reported_as_undocumented() {
    let mut fx = Fixture::new("whole-project");
    fx.write("src/documented.rs", "pub fn documented_fn() {}\n");
    fx.write("src/forgotten.rs", "pub fn forgotten_fn() {}\n");
    fx.note(
        "features/x.md",
        "---\ntype: feature\nfiles:\n  - src/documented.rs\n---\n\n# X\n",
    );

    let index = fx.index();

    assert_eq!(index.code_symbols.len(), 2, "both files should be parsed");
    assert_eq!(index.definitions_of("forgotten_fn").len(), 1);
    assert!(
        index
            .verified_docs_for_symbol(&fx.path("src/forgotten.rs"), "forgotten_fn")
            .is_empty(),
        "an unreferenced file should be indexed but undocumented"
    );
}

#[test]
fn an_ambiguous_identifier_does_not_link_to_everything() {
    // A note mentioning `run` shouldn't attach itself to every `run` in the repo.
    let mut fx = Fixture::new("fanout");
    for i in 0..12 {
        fx.write(&format!("src/m{i}.rs"), "pub fn run() {}\n");
    }
    fx.write("src/anchor.rs", "pub fn anchor() {}\n");
    let note = fx.note(
        "features/x.md",
        "---\ntype: feature\nfiles:\n  - src/anchor.rs\n---\n\n# X\n\nCalls `run` somewhere.\n",
    );

    let index = fx.index();
    assert_eq!(index.definitions_of("run").len(), 12);
    assert_eq!(
        linked_symbol_names(&index, &note),
        vec!["anchor"],
        "an identifier with 12 definitions is too ambiguous to link"
    );
}

#[test]
fn fuzzy_links_are_a_labelled_fallback() {
    let mut fx = Fixture::new("fuzzy");
    fx.write("src/session_manager.rs", SESSION_RS);
    // No file reference and no backtick identifier — only the title to go on.
    let note = fx.note(
        "components/session_manager.md",
        "---\ntype: component\n---\n\n# session_manager\n\nManages sessions.\n",
    );

    let index = fx.index();
    let refs = index.symbols_for_note(&note);
    assert!(
        !refs.is_empty(),
        "fuzzy fallback should still find the file"
    );
    assert!(refs.iter().all(|r| r.confidence == MatchConfidence::Fuzzy));

    let docs = index.docs_for_symbol(&fx.path("src/session_manager.rs"), "SessionManager");
    assert!(!docs[0].confidence.is_verified());
    assert!(
        index
            .verified_docs_for_symbol(&fx.path("src/session_manager.rs"), "SessionManager")
            .is_empty(),
        "a fuzzy guess must not count as documentation"
    );
}

#[test]
fn an_exact_reference_suppresses_the_fuzzy_fallback() {
    let mut fx = Fixture::new("no-fuzzy");
    fx.write("src/session.rs", SESSION_RS);
    fx.write("src/session_helper.rs", "pub fn helper() {}\n");
    let note = fx.note(
        "features/session.md",
        "---\ntype: feature\nfiles:\n  - src/session.rs\n---\n\n# session\n",
    );

    let index = fx.index();
    assert!(
        index
            .symbols_for_note(&note)
            .iter()
            .all(|r| r.confidence == MatchConfidence::Exact),
        "a note with a resolved file reference should not also guess by title"
    );
}

#[test]
fn multi_language_symbol_extraction() {
    let mut fx = Fixture::new("langs");
    fx.write(
        "src/mod.py",
        "class Widget:\n    pass\n\ndef build():\n    pass\n",
    );
    fx.write(
        "src/mod.ts",
        "export interface Shape {}\nexport class Circle {}\n",
    );
    fx.write("src/mod.go", "package main\n\nfunc Run() {}\n");
    fx.note(
        "features/x.md",
        "---\ntype: feature\nfiles:\n  - src/mod.py\n  - src/mod.ts\n  - src/mod.go\n---\n\n# X\n",
    );

    let index = fx.index();
    for name in ["Widget", "build", "Shape", "Circle", "Run"] {
        assert!(
            !index.definitions_of(name).is_empty(),
            "expected to extract `{name}`"
        );
    }
}

/// Every link is stored on both sides, and leads to a symbol that its file defines.
fn assert_sound(index: &Index) {
    for i in 0..index.sym_to_docs.len() {
        let id = index.sym_to_docs.key_at(i);
        let docs = index.sym_to_docs.value_at(i);
        assert!(!docs.is_empty());
        for d in docs {
            assert!(index
                .symbols_for_note(&d.note_path)
                .iter()
                .any(|r| r.symbol_id == *id && r.confidence == d.confidence));
        }
    }
    for i in 0..index.doc_to_syms.len() {
        let note = index.doc_to_syms.key_at(i);
        assert!(index.vault_notes.get(note).is_some());
        for r in index.doc_to_syms.value_at(i) {
            assert!(index
                .docs_for_symbol(&r.symbol_id.file, &r.symbol_id.name)
                .iter()
                .any(|d| d.note_path == *note && d.confidence == r.confidence));
            let list = index.code_symbols.get(&r.symbol_id.file).unwrap();
            assert!(list.iter().any(|s| s.name == r.symbol_id.name));
            assert!(index
                .definitions_of(&r.symbol_id.name)
                .contains(&r.symbol_id));
        }
    }
}

#[test]
fn the_index_stays_sound_through_changes() {
    let mut fx = Fixture::new("sound");
    let a = fx.write("src/a.rs", "pub fn alpha() {}\npub fn shared() {}\n");
    let b = fx.write("src/b.rs", "pub fn beta() {}\npub fn shared() {}\n");
    let x = fx.note(
        "x.md",
        "---\ntype: feature\nfiles:\n  - src/a.rs\n---\n\n# X\n\nSee `shared` and `beta`.\n",
    );
    let y = fx.note(
        "y.md",
        "---\ntype: feature\nfiles:\n  - src/b.rs\n---\n\n# Y\n\nSee `alpha`.\n",
    );
    let mut index = fx.index();
    assert_sound(&index);
    assert_eq!(
        linked_symbol_names(&index, &x),
        vec!["alpha", "beta", "shared", "shared"]
    );

    fx.write("src/a.rs", "pub fn gamma() {}\n");
    fx.reindex_code_file(&mut index, &a);
    assert_sound(&index);
    assert_eq!(
        linked_symbol_names(&index, &x),
        vec!["beta", "gamma", "shared"]
    );
    assert_eq!(linked_symbol_names(&index, &y), vec!["beta", "shared"]);

    fx.note("x.md", "---\ntype: feature\n---\n\n# X\n\nOnly `gamma`.\n");
    fx.reindex_note(&mut index, &x);
    assert_sound(&index);
    assert_eq!(linked_symbol_names(&index, &x), vec!["gamma"]);

    fx.remove(&b);
    index.remove_code_file(&b, &fx.disk());
    assert_sound(&index);
    assert!(index.symbols_for_note(&y).is_empty());
    assert!(index.definitions_of("shared").is_empty());

    index.remove_note(&x);
    assert_sound(&index);
    assert_eq!(index.sym_to_docs.len(), 0);
    assert_eq!(index.doc_to_syms.len(), 0);
}

#[test]
fn reindexing_an_unchanged_note_changes_nothing() {
    let mut fx = Fixture::new("again");
    let a = fx.write("src/a.rs", "pub fn alpha() {}\n");
    let x = fx.note("x.md", "---\nfiles:\n  - src/a.rs\n---\n# X\n");
    fx.note("y.md", "---\nfiles:\n  - src/a.rs\n---\n# Y\n");
    let mut index = fx.index();
    fx.reindex_note(&mut index, &x);
    let before: Vec<String> = index
        .docs_for_symbol(&a, "alpha")
        .into_iter()
        .map(|d| d.note_title)
        .collect();
    fx.reindex_note(&mut index, &x);
    let after: Vec<String> = index
        .docs_for_symbol(&a, "alpha")
        .into_iter()
        .map(|d| d.note_title)
        .collect();
    assert_eq!(before, vec!["Y", "X"]);
    assert_eq!(after, before);
}

#[test]
fn unlinking_a_note_undoes_its_linking() {
    let mut fx = Fixture::new("undo");
    let a = fx.write("src/a.rs", "pub fn alpha() {}\n");
    fx.note("y.md", "---\nfiles:\n  - src/a.rs\n---\n# Y\n");
    let mut index = fx.index();
    let note = parse_note(&fx.path(".doctrack/x.md"), "# X\n\n`alpha`\n");
    doctrack::matching::link_note(&mut index, &note, &fx.disk());
    assert_eq!(index.docs_for_symbol(&a, "alpha").len(), 2);
    index.unlink_note(&fx.path(".doctrack/x.md"));
    let docs = index.docs_for_symbol(&a, "alpha");
    assert_eq!(docs.len(), 1);
    assert_eq!(docs[0].note_title, "Y");
    assert_eq!(index.doc_to_syms.len(), 1);
}

#[test]
fn unlinking_the_last_note_forgets_the_symbol() {
    let mut fx = Fixture::new("forget");
    fx.write("src/a.rs", "pub fn alpha() {}\n");
    let x = fx.note("x.md", "---\nfiles:\n  - src/a.rs\n---\n# X\n");
    let mut index = fx.index();
    assert_eq!(index.sym_to_docs.len(), 1);
    index.unlink_note(&x);
    assert_eq!(index.sym_to_docs.len(), 0);
    // The note itself is kept.
    assert!(index.vault_notes.get(&x).is_some());
}

#[test]
fn a_file_that_cannot_be_parsed_leaves_the_index_alone() {
    let mut fx = Fixture::new("bad-file");
    let a = fx.write("src/a.rs", "pub fn alpha() {}\n");
    let x = fx.note("x.md", "---\nfiles:\n  - src/a.rs\n---\n# X\n");
    let mut index = fx.index();
    let r = index.reindex_code_file(&fx.path("src/a.txt"), "pub fn alpha() {}\n", &fx.disk());
    assert_eq!(r.unwrap_err().message(), "unsupported language: txt");
    assert_eq!(index.code_symbols.len(), 1);
    assert_eq!(index.docs_for_symbol(&a, "alpha").len(), 1);
    assert_eq!(linked_symbol_names(&index, &x), vec!["alpha"]);
}

#[test]
fn files_that_cannot_be_read_are_counted_as_skipped() {
    let mut index = Index::new("/p", "/p/.doctrack");
    let sources = vec![
        SourceFile {
            path: "/p/a.rs".to_string(),
            text: Some("fn a() {}".to_string()),
        },
        SourceFile {
            path: "/p/b.rs".to_string(),
            text: None,
        },
        SourceFile {
            path: "/p/c.txt".to_string(),
            text: Some("fn c() {}".to_string()),
        },
    ];
    assert!(sources.iter().all(|s| s.fits()));
    assert_eq!(index.build(&sources, &Disk::new()), 2);
    assert_eq!(index.code_symbols.len(), 1);
}

#[test]
fn the_bound_on_files_never_costs_a_documented_one() {
    let mut fx = Fixture::new("bound");
    for name in ["c", "a", "z", "b"] {
        fx.write(&format!("src/{name}.rs"), "pub fn f() {}\n");
    }
    fx.write("README.txt", "not a source\n");
    fx.note("x.md", "---\nfiles:\n  - src/z.rs\n  - src/z.rs:4\n---\n# X\n");
    let mut index = Index::new(&fx.root, &fx.path(".doctrack"));
    index.build_file_lookup(&fx.walked());
    index.add_notes(&fx.notes());
    let names = |files: &Vec<String>| -> Vec<String> {
        files
            .iter()
            .map(|p| p.rsplit('/').next().unwrap().to_string())
            .collect()
    };

    let all = index.collect_code_files(10, &fx.disk());
    assert_eq!(names(&all.files), vec!["z.rs", "a.rs", "b.rs", "c.rs"]);
    assert_eq!((all.referenced, all.dropped), (1, 0));

    let some = index.collect_code_files(3, &fx.disk());
    assert_eq!(names(&some.files), vec!["z.rs", "a.rs", "b.rs"]);
    assert_eq!((some.referenced, some.dropped), (1, 1));

    let none = index.collect_code_files(0, &fx.disk());
    assert_eq!(names(&none.files), vec!["z.rs"]);
    assert_eq!((none.referenced, none.dropped), (1, 3));
}

#[test]
fn a_referenced_file_outside_the_walk_is_collected() {
    let mut fx = Fixture::new("outside");
    fx.write("build/gen.rs", "pub fn generated() {}\n");
    let x = fx.note("x.md", "---\nfiles:\n  - build/gen.rs\n---\n# X\n");
    let index = fx.index();
    assert_eq!(index.file_lookup.len(), 0);
    assert_eq!(linked_symbol_names(&index, &x), vec!["generated"]);
}

#[test]
fn walks_skip_hidden_and_generated_directories() {
    for name in [
        "target", "node_modules", ".git", ".doctrack", ".idea", ".vscode", "build", "dist", "out",
        "__pycache__", ".gradle", "vendor", ".next", ".anything", ".",
    ] {
        assert!(!walks_into(name), "{name}");
    }
    for name in ["src", "targets", "Build", "a.b", ""] {
        assert!(walks_into(name), "{name}");
    }
}

fn reference(path: &str, bare: bool) -> FileRef {
    FileRef {
        path: path.to_string(),
        is_bare_filename: bare,
        line: None,
    }
}

#[test]
fn references_resolve_as_they_are_written() {
    let mut index = Index::new("/p", "/p/.doctrack");
    index.build_file_lookup(&vec![
        "/p/core/src/main/java/org/demo/config/Foo.java".to_string(),
        "/p/core/src/main/java/org/demo/other/Foo.java".to_string(),
        "/p/app/Foo.java".to_string(),
        "/p/app/oauth.rs".to_string(),
        "/p/lib/auth.rs".to_string(),
    ]);
    let mut disk = Disk::new();
    disk.add("/p/app/./Foo.java");

    // Directories left out.
    let r = index.resolve_file_ref(
        &reference("core/src/main/java/.../config/Foo.java", false),
        &disk,
    );
    assert_eq!(r, vec!["/p/core/src/main/java/org/demo/config/Foo.java"]);
    // More than one gap means nothing.
    let r = index.resolve_file_ref(&reference("core/.../demo/.../Foo.java", false), &disk);
    assert!(r.is_empty());
    // A bare name means every file so named.
    let r = index.resolve_file_ref(&reference("Foo.java", true), &disk);
    assert_eq!(r.len(), 3);
    // A path that exists under the root means that file.
    let r = index.resolve_file_ref(&reference("app/Foo.java", false), &disk);
    assert_eq!(r, vec!["/p/app/Foo.java"]);
    // A partial path means the files that end in it, whole names only.
    let r = index.resolve_file_ref(&reference("other/Foo.java", false), &disk);
    assert_eq!(r, vec!["/p/core/src/main/java/org/demo/other/Foo.java"]);
    let r = index.resolve_file_ref(&reference("auth.rs", false), &disk);
    assert_eq!(r, vec!["/p/lib/auth.rs"]);
    let r = index.resolve_file_ref(&reference("nowhere.rs", true), &disk);
    assert!(r.is_empty());
}

#[test]
fn a_probe_decides_what_a_path_means() {
    let mut index = Index::new("/p", "/p/.doctrack");
    index.build_file_lookup(&vec!["/p/sub/a/b.rs".to_string()]);
    let r = reference("a/b.rs", false);
    assert_eq!(index.probe(&r), Some("/p/a/b.rs".to_string()));
    assert_eq!(index.probe(&reference("b.rs", true)), None);
    assert_eq!(index.probe(&reference("a/.../b.rs", false)), None);
    let mut disk = Disk::new();
    disk.add("/p/unrelated.rs");
    assert_eq!(index.resolve_file_ref(&r, &disk), vec!["/p/sub/a/b.rs"]);
    disk.add("/p/a/b.rs");
    assert_eq!(index.resolve_file_ref(&r, &disk), vec!["/p/a/b.rs"]);
}

#[test]
fn a_reference_to_a_line_links_only_the_symbol_there() {
    let mut fx = Fixture::new("line");
    fx.write("src/a.rs", "pub fn alpha() {}\npub fn beta() {}\n");
    let x = fx.note("x.md", "# X\n\nSee `src/a.rs:1`.\n");
    let index = fx.index();
    assert_eq!(linked_symbol_names(&index, &x), vec!["beta"]);
    let docs = index.docs_for_symbol(&fx.path("src/a.rs"), "beta");
    assert_eq!(docs[0].confidence, MatchConfidence::Exact);
}

#[test]
fn links_say_how_they_were_found() {
    let mut fx = Fixture::new("context");
    fx.write("src/a.rs", "pub fn alpha() {}\n");
    fx.write("src/b.rs", "pub fn beta() {}\n");
    fx.note(
        "x.md",
        "---\ntype: feature\nsummary: On alpha\nfiles:\n  - src/a.rs\n---\n# X\n\n`beta`\n",
    );
    let index = fx.index();
    let alpha = index.docs_for_symbol(&fx.path("src/a.rs"), "alpha");
    assert_eq!(alpha[0].context, "On alpha");
    assert_eq!(alpha[0].note_type, "feature");
    let beta = index.docs_for_symbol(&fx.path("src/b.rs"), "beta");
    assert_eq!(beta[0].context, "references `beta`");
}

#[test]
fn identifiers_of_two_letters_do_not_link() {
    let mut fx = Fixture::new("short");
    fx.write("src/a.rs", "pub fn go() {}\npub fn run() {}\n");
    let x = fx.note("notes.md", "# Zzz\n\n`go` and `run`\n");
    let index = fx.index();
    assert_eq!(linked_symbol_names(&index, &x), vec!["run"]);
    assert_eq!(confidences(&index, &x), vec![MatchConfidence::Strong]);
    // The length is counted in characters.
    let mut index = Index::new("/p", "/p/.doctrack");
    let symbol = |name: &str| CodeSymbol {
        name: name.to_string(),
        kind: doctrack::symbols::SymbolKind::Function,
        start_line: 0,
        end_line: 0,
    };
    index.set_symbols("/p/a.py", vec![symbol("éà"), symbol("éàü")]);
    let mut note = parse_note("/p/.doctrack/n.md", "# Zzz\n");
    note.code_idents = vec!["éà".to_string(), "éàü".to_string()];
    index.update_note(note, &Disk::new());
    assert_eq!(
        linked_symbol_names(&index, "/p/.doctrack/n.md"),
        vec!["éàü"]
    );
}

#[test]
fn identifiers_with_eight_definitions_still_link() {
    for (count, expected) in [(8, 8), (9, 0)] {
        let mut fx = Fixture::new("eight");
        for i in 0..count {
            fx.write(&format!("src/m{i}.rs"), "pub fn run() {}\n");
        }
        let x = fx.note("notes.md", "# Zzz\n\n`run`\n");
        let index = fx.index();
        assert_eq!(index.symbols_for_note(&x).len(), expected);
    }
}

#[test]
fn the_guess_is_the_first_of_the_best() {
    let files: Vec<String> = vec!["a".to_string(), "b".to_string(), "c".to_string(), "d".to_string()];
    let best = |scores: Vec<Option<u32>>| doctrack::matching::best_scored(&files, &scores);
    assert_eq!(
        best(vec![Some(90), Some(120), Some(120), None]),
        Some(("b".to_string(), 120))
    );
    assert_eq!(best(vec![Some(79), None, Some(12), None]), None);
    assert_eq!(
        best(vec![None, None, Some(80), Some(79)]),
        Some(("c".to_string(), 80))
    );
}

#[test]
fn the_guess_is_the_file_most_like_the_title() {
    let mut fx = Fixture::new("guess");
    fx.write("src/unrelated.rs", "pub fn other() {}\n");
    fx.write("src/payment_gateway.rs", "pub fn charge() {}\n");
    let x = fx.note("x.md", "# payment_gateway\n");
    let index = fx.index();
    assert_eq!(linked_symbol_names(&index, &x), vec!["charge"]);
    let docs = index.docs_for_symbol(&fx.path("src/payment_gateway.rs"), "charge");
    assert!(docs[0].context.starts_with("fuzzy title match (score: "));
    assert_eq!(docs[0].confidence, MatchConfidence::Fuzzy);
}

#[test]
fn set_symbols_keeps_names_in_step() {
    let mut index = Index::new("/p", "/p/.doctrack");
    let symbol = |name: &str| CodeSymbol {
        name: name.to_string(),
        kind: doctrack::symbols::SymbolKind::Function,
        start_line: 0,
        end_line: 0,
    };
    index.set_symbols("/p/./a.rs", vec![symbol("one"), symbol("two"), symbol("one")]);
    index.set_symbols("/p/b.rs", vec![symbol("one")]);
    let files: Vec<String> = index
        .definitions_of("one")
        .into_iter()
        .map(|id| id.file)
        .collect();
    assert_eq!(files, vec!["/p/a.rs", "/p/b.rs"]);
    index.set_symbols("/p//a.rs", vec![symbol("two")]);
    assert_eq!(index.definitions_of("one").len(), 1);
    assert_eq!(index.definitions_of("one")[0].file, "/p/b.rs");
    assert_eq!(index.definitions_of("two").len(), 1);
    index.set_symbols("/p/a.rs", vec![]);
    assert!(index.definitions_of("two").is_empty());
    assert_eq!(index.code_symbols.len(), 2);
}

#[test]
fn the_bound_comes_from_a_number_or_is_the_default() {
    assert_eq!(DEFAULT_MAX_INDEXED_FILES, 20_000);
    assert_eq!(max_indexed_files(Some("12")), 12);
    assert_eq!(max_indexed_files(Some("+7")), 7);
    assert_eq!(max_indexed_files(Some("")), 20_000);
    assert_eq!(max_indexed_files(Some("+")), 20_000);
    assert_eq!(max_indexed_files(Some("-1")), 20_000);
    assert_eq!(max_indexed_files(Some("12x")), 20_000);
    assert_eq!(max_indexed_files(Some("99999999999999999999999")), 20_000);
    assert_eq!(max_indexed_files(None), 20_000);
}

#[test]
fn confidence_is_ordered_strongest_first() {
    assert!(MatchConfidence::Exact < MatchConfidence::Strong);
    assert!(MatchConfidence::Strong < MatchConfidence::Fuzzy);
    assert!(MatchConfidence::Exact.is_verified());
    assert!(MatchConfidence::Strong.is_verified());
    assert!(!MatchConfidence::Fuzzy.is_verified());
    assert_eq!(MatchConfidence::Exact.label(), "exact");
    assert_eq!(MatchConfidence::Strong.label(), "strong");
    assert_eq!(MatchConfidence::Fuzzy.label(), "fuzzy");
}

#[test]
fn a_given_guess_links_to_its_file() {
    let mut fx = Fixture::new("given");
    let a = fx.write("src/a.rs", "pub fn alpha() {}\n");
    let mut index = fx.index();
    let note = parse_note(&fx.path(".doctrack/x.md"), "# Anything\n");
    doctrack::matching::link_note_with(&mut index, &note, Some((a.clone(), 91)), &fx.disk());
    let docs = index.docs_for_symbol(&a, "alpha");
    assert_eq!(docs.len(), 1);
    assert_eq!(docs[0].context, "fuzzy title match (score: 91)");
    // A file that is not indexed gives no links, and no guess gives none.
    let other = parse_note(&fx.path(".doctrack/y.md"), "# Other\n");
    let gone = Some((fx.path("src/gone.rs"), 91));
    doctrack::matching::link_note_with(&mut index, &other, gone, &fx.disk());
    doctrack::matching::link_note_with(&mut index, &other, None, &fx.disk());
    assert!(index.symbols_for_note(&fx.path(".doctrack/y.md")).is_empty());
}

#[test]
fn changes_on_disk_are_followed() {
    let mut fx = Fixture::new("follow");
    let a = fx.write("src/a.rs", "pub fn alpha() {}\n");
    let x = fx.note("x.md", "---\nfiles:\n  - src/a.rs\n---\n# X\n");
    let vault = fx.path(".doctrack");
    let mut index = fx.index();

    let follow = |fx: &Fixture, index: &mut Index, path: &str| {
        let content = fx.read(path);
        let event = classify(&vault, path, content.is_some()).unwrap();
        assert!(index.accepts(&event, content.as_deref()));
        assert!(index.follow(&event, content.as_deref(), &fx.disk()));
        assert_sound(index);
    };

    fx.write("src/a.rs", "pub fn alpha() {}\npub fn beta() {}\n");
    follow(&fx, &mut index, &a);
    assert_eq!(linked_symbol_names(&index, &x), vec!["alpha", "beta"]);

    let y = fx.note("y.md", "# Y\n\n`beta`\n");
    follow(&fx, &mut index, &y);
    assert_eq!(linked_symbol_names(&index, &y), vec!["beta"]);

    fx.remove(&x);
    follow(&fx, &mut index, &x);
    assert_eq!(index.docs_for_symbol(&a, "beta").len(), 1);

    fx.remove(&a);
    follow(&fx, &mut index, &a);
    assert_eq!(index.code_symbols.len(), 0);
    assert_eq!(index.sym_to_docs.len(), 0);

    // What cannot be read changes nothing.
    index.apply(&WatchEvent::VaultNoteChanged(y.clone()), None, &fx.disk());
    index.apply(&WatchEvent::CodeFileChanged(a), None, &fx.disk());
    assert_eq!(index.vault_notes.len(), 1);
    let long = format!("/p/{}.rs", "a".repeat(3_000));
    let change = WatchEvent::CodeFileChanged(long);
    assert!(!index.accepts(&change, Some("")));
    assert!(!index.follow(&change, Some(""), &fx.disk()));
    assert_eq!(index.code_symbols.len(), 0);
}

fn owned(files: &[&str]) -> Vec<String> {
    files.iter().map(|f| f.to_string()).collect()
}

#[test]
fn abbreviated_paths_match_whole_names() {
    let mut index = Index::new("/p", "/p/.doctrack");
    index.build_file_lookup(&owned(&[
        "/p/src/auth/session.rs",
        "/p/src/auth/mysession.rs",
        "/p/src2/auth/session.rs",
        "/p/src/session.rs",
        "/q/src/auth/session.rs",
    ]));
    let found = |path: &str| index.resolve_file_ref(&reference(path, false), &Disk::new());
    assert_eq!(
        found("src/.../session.rs"),
        vec!["/p/src/auth/session.rs", "/p/src/session.rs"]
    );
    assert_eq!(found("src/.../auth/session.rs"), vec!["/p/src/auth/session.rs"]);
    assert_eq!(found("src/auth/.../session.rs"), vec!["/p/src/auth/session.rs"]);
    // The two parts do not overlap.
    assert!(found("src/auth/session.rs/.../session.rs").is_empty());
    // A part that is missing matches anything.
    assert_eq!(found(".../mysession.rs"), vec!["/p/src/auth/mysession.rs"]);
    assert_eq!(found("src2/...").len(), 1);
}

/// Nine files that define `run`, a file of its own, and a note that refers to the one and names the
/// other.
fn nine_runs(name: &str) -> (Fixture, String) {
    let mut fx = Fixture::new(name);
    for i in 0..9 {
        fx.write(&format!("src/m{i}.rs"), "pub fn run() {}\n");
    }
    fx.write("src/anchor.rs", "pub fn anchor() {}\n");
    let note = fx.note(
        "n.md",
        "---\ntype: feature\nfiles:\n  - src/anchor.rs\n---\n\n# X\n\nCalls `run` somewhere.\n",
    );
    (fx, note)
}

/// The symbols of a note: file, name and confidence.
fn links_of(index: &Index, note: &str) -> Vec<(String, String, MatchConfidence)> {
    index
        .symbols_for_note(note)
        .into_iter()
        .map(|r| (r.symbol_id.file, r.symbol_id.name, r.confidence))
        .collect()
}

#[test]
fn a_name_that_becomes_telling_links_again() {
    let (mut fx, note) = nine_runs("telling");
    let mut index = fx.index();
    assert_eq!(linked_symbol_names(&index, &note), vec!["anchor"]);

    let last = fx.write("src/m8.rs", "pub fn stop() {}\n");
    fx.reindex_code_file(&mut index, &last);
    let mut expected = vec![(fx.path("src/anchor.rs"), "anchor".to_string(), MatchConfidence::Exact)];
    for i in 0..8 {
        expected.push((
            fx.path(&format!("src/m{i}.rs")),
            "run".to_string(),
            MatchConfidence::Strong,
        ));
    }
    assert_eq!(links_of(&index, &note), expected);
    assert_eq!(links_of(&fx.index(), &note), expected);
    assert_sound(&index);

    // One more definition, and the name says too little again.
    let last = fx.write("src/m8.rs", "pub fn run() {}\n");
    fx.reindex_code_file(&mut index, &last);
    assert_eq!(linked_symbol_names(&index, &note), vec!["anchor"]);
}

#[test]
fn removing_one_of_too_many_definitions_links_the_rest() {
    let (mut fx, note) = nine_runs("fewer");
    let mut index = fx.index();
    let gone = fx.path("src/m3.rs");
    fx.remove(&gone);
    index.remove_code_file(&gone, &fx.disk());
    assert_eq!(links_of(&index, &note), links_of(&fx.index(), &note));
    assert_eq!(links_of(&index, &note).len(), 9);
    assert_sound(&index);
}

#[test]
fn a_removed_file_is_forgotten_entirely() {
    let mut index = Index::new("/p", "/p/.doctrack");
    index.build_file_lookup(&owned(&["/p/a.rs", "/p/b/c.rs", "/p/d/c.rs"]));
    let alpha = CodeSymbol {
        name: "alpha".to_string(),
        kind: doctrack::symbols::SymbolKind::Function,
        start_line: 0,
        end_line: 0,
    };
    index.set_symbols("/p/a.rs", vec![alpha]);
    index.remove_code_file("/p/a.rs", &Disk::new());
    let found = |index: &Index, path: &str, bare: bool| {
        index.resolve_file_ref(&reference(path, bare), &Disk::new())
    };
    assert!(found(&index, "a.rs", true).is_empty());
    assert!(found(&index, "./.../a.rs", false).is_empty());
    assert!(found(&index, "p/a.rs", false).is_empty());
    assert!(index.definitions_of("alpha").is_empty());
    let gone = index.collect_code_files(10, &Disk::new());
    assert_eq!(gone.files, vec!["/p/b/c.rs", "/p/d/c.rs"]);
    // A file of the same name elsewhere stays.
    index.remove_code_file("/p/b/c.rs", &Disk::new());
    assert_eq!(found(&index, "c.rs", true), vec!["/p/d/c.rs"]);
}

#[test]
fn a_project_is_walked_whatever_its_root_is_called() {
    assert!(enters("/w/build", "/w/build"));
    assert!(enters("/w/build/", "/w/build"));
    assert!(enters("/w/.hidden", "/w/.hidden"));
    assert!(!enters("/w/build", "/w/build/build"));
    assert!(!enters("/w/build", "/w/build/src/.git"));
    assert!(enters("/w/build", "/w/build/src"));
    let mut fx = Fixture::new("root");
    fx.root = "/w/build".to_string();
    fx.write("src/a.rs", "pub fn alpha() {}\n");
    fx.write("target/b.rs", "pub fn beta() {}\n");
    let index = fx.index();
    assert_eq!(
        index.resolve_file_ref(&reference("a.rs", true), &Disk::new()),
        vec!["/w/build/src/a.rs"]
    );
    assert_eq!(index.file_lookup.len(), 1);
}

#[test]
fn a_guess_follows_the_files_that_are_there() {
    let mut fx = Fixture::new("guess-follows");
    fx.write("src/session_old_manager.rs", "pub fn alpha() {}\n");
    let note = fx.note("n.md", "# session_manager\n\nNothing else.\n");
    let mut index = fx.index();
    assert_eq!(linked_symbol_names(&index, &note), vec!["alpha"]);

    // A file that comes in and is more like the title.
    let better = fx.write("src/session_manager.rs", "pub fn beta() {}\n");
    fx.reindex_code_file(&mut index, &better);
    assert_eq!(links_of(&index, &note), links_of(&fx.index(), &note));

    // And goes again, without a symbol to its name.
    let better = fx.write("src/session_manager.rs", "// nothing\n");
    fx.reindex_code_file(&mut index, &better);
    assert_eq!(links_of(&index, &note), links_of(&fx.index(), &note));
    fx.remove(&better);
    index.remove_code_file(&better, &fx.disk());
    assert_eq!(linked_symbol_names(&index, &note), vec!["alpha"]);
    assert_eq!(confidences(&index, &note), vec![MatchConfidence::Fuzzy]);
    assert_sound(&index);
}

#[test]
fn references_stand_strongest_first_and_once() {
    let mut fx = Fixture::new("strongest");
    fx.write("src/a.rs", "pub fn alpha() {}\npub fn beta() {}\n");
    fx.write("src/b.rs", "pub fn gamma() {}\n");
    let note = fx.note(
        "n.md",
        "---\nfiles:\n  - src/a.rs\n---\n# Title\n\n`gamma`, `beta` and `src/a.rs`.\n",
    );
    let index = fx.index();
    let links: Vec<_> = links_of(&index, &note)
        .into_iter()
        .map(|(_, name, confidence)| (name, confidence))
        .collect();
    assert_eq!(
        links,
        vec![
            ("alpha".to_string(), MatchConfidence::Exact),
            ("beta".to_string(), MatchConfidence::Exact),
            ("gamma".to_string(), MatchConfidence::Strong),
        ]
    );
    let docs = index.docs_for_symbol(&fx.path("src/a.rs"), "beta");
    assert_eq!(docs.len(), 1);
    assert_eq!(docs[0].confidence, MatchConfidence::Exact);
    assert_eq!(docs[0].note_title, "Title");
}

#[test]
fn notes_are_linked_alike_in_either_order() {
    let mut fx = Fixture::new("order");
    fx.write("src/a.rs", "pub fn alpha() {}\n");
    let x = fx.note("x.md", "---\nfiles:\n  - src/a.rs\n---\n# X\n");
    let y = fx.note("y.md", "# Y\n\n`alpha`\n");
    let mut there = fx.index();
    let mut back = fx.index();
    for (index, order) in [(&mut there, [&x, &y]), (&mut back, [&y, &x])] {
        for note in order {
            index.unlink_note(note);
        }
        for note in order {
            fx.reindex_note(index, note);
        }
    }
    for note in [&x, &y] {
        assert_eq!(links_of(&there, note), links_of(&back, note));
    }
    let paths = |index: &Index| {
        let mut paths: Vec<_> = index
            .docs_for_symbol(&fx.path("src/a.rs"), "alpha")
            .into_iter()
            .map(|d| d.note_path)
            .collect();
        paths.sort();
        paths
    };
    assert_eq!(paths(&there), vec![x.clone(), y.clone()]);
    assert_eq!(paths(&there), paths(&back));
}

#[test]
fn a_reference_follows_a_file_that_comes_and_goes() {
    let mut fx = Fixture::new("comes-and-goes");
    fx.write("lib/src/a.rs", "pub fn other() {}\n");
    let note = fx.note("n.md", "---\nfiles:\n  - src/a.rs\n---\n# Zzz\n");
    let mut index = fx.index();
    assert_eq!(linked_symbol_names(&index, &note), vec!["other"]);
    let path = fx.write("src/a.rs", "pub fn alpha() {}\n");
    let change = WatchEvent::CodeFileChanged(path.clone());
    index.apply(&change, fx.read(&path).as_deref(), &fx.disk());
    assert_eq!(linked_symbol_names(&index, &note), vec!["alpha"]);
    fx.remove(&path);
    index.apply(&WatchEvent::CodeFileRemoved(path), None, &fx.disk());
    assert_eq!(linked_symbol_names(&index, &note), vec!["other"]);
    assert_sound(&index);
}

#[test]
fn a_file_that_comes_back_is_found_again() {
    let mut fx = Fixture::new("back");
    let a = fx.write("src/a.rs", "pub fn alpha() {}\n");
    fx.write("lib/a.rs", "pub fn other() {}\n");
    let bare = fx.note("bare.md", "# Zzz\n\n`a.rs`\n");
    let partial = fx.note("partial.md", "# Zzz\n\n`x/../src/a.rs` and `rc/a.rs`\n");
    let short = fx.note("short.md", "# Zzz\n\n`src/.../a.rs`\n");
    let mut index = fx.index();
    let notes = [&bare, &partial, &short];
    let before: Vec<_> = notes.iter().map(|n| links_of(&index, n)).collect();
    assert_eq!(linked_symbol_names(&index, &bare), vec!["alpha", "other"]);
    assert_eq!(linked_symbol_names(&index, &short), vec!["alpha"]);

    let source = fx.read(&a).unwrap();
    fx.remove(&a);
    index.apply(&WatchEvent::CodeFileRemoved(a.clone()), None, &fx.disk());
    assert_eq!(linked_symbol_names(&index, &bare), vec!["other"]);
    assert!(links_of(&index, &short).is_empty());
    assert_sound(&index);

    fx.write("src/a.rs", &source);
    index.apply(&WatchEvent::CodeFileChanged(a.clone()), Some(&source), &fx.disk());
    let after: Vec<_> = notes.iter().map(|n| links_of(&index, n)).collect();
    assert_eq!(after, before);
    assert_sound(&index);

    // A walk finds it again too.
    index.remove_code_file(&a, &Disk::new());
    assert_eq!(index.removed.len(), 1);
    index.build_file_lookup(&vec![a]);
    assert_eq!(index.removed.len(), 0);
}

#[test]
fn a_file_with_an_odd_name_is_indexed() {
    let mut fx = Fixture::new("odd");
    let odd = fx.write("src/\u{b5}.rs", "pub fn alpha() {}\n");
    let x = fx.note("x.md", "---\nfiles:\n  - src/\u{b5}.rs\n---\n# X\n");
    let y = fx.note("y.md", "# Y\n\n`alpha`\n");
    let mut index = fx.index();
    assert_eq!(linked_symbol_names(&index, &x), vec!["alpha"]);
    assert_eq!(linked_symbol_names(&index, &y), vec!["alpha"]);
    fx.write("src/\u{b5}.rs", "pub fn alpha() {}\npub fn beta() {}\n");
    fx.reindex_code_file(&mut index, &odd);
    assert_eq!(linked_symbol_names(&index, &x), vec!["alpha", "beta"]);
    // Where a file reference links, the title is not scored.
    let mut accented = parse_note(&x, &fx.read(&x).unwrap());
    accented.title = "S\u{e4}ge".to_string();
    assert!(index.scores_all());
    assert!(!index.scores(&accented.title));
    assert!(index.can_link(&accented, &fx.disk()));
    index.update_note(accented, &fx.disk());
    assert!(!index.scores_all());
    assert_eq!(linked_symbol_names(&index, &x), vec!["alpha", "beta"]);
}

#[test]
fn names_beyond_ascii_link() {
    let mut fx = Fixture::new("letters");
    fx.write("src/a.py", "def gr\u{f6}\u{df}e(): pass\n");
    let x = fx.note("x.md", "# X\n\n`gr\u{f6}\u{df}e()`\n");
    let index = fx.index();
    assert_eq!(linked_symbol_names(&index, &x), vec!["gr\u{f6}\u{df}e"]);
}
