//! Notes, paths, texts, and the tables that the index is made of.
use doctrack::notes::{parse_note, split_frontmatter};
use doctrack::order::sort_paths;
use doctrack::paths;
use doctrack::fuzzy::scorable;
use doctrack::index::{Disk, Index};
use doctrack::project::text_fits;
use doctrack::table::Table;
use doctrack::text;
use doctrack::vault::{is_vault_internal, ref_matches_path, VaultNote};

fn strings(list: &[&str]) -> Vec<String> {
    list.iter().map(|s| s.to_string()).collect()
}

fn ref_paths(note: &VaultNote) -> Vec<String> {
    note.file_refs.iter().map(|r| r.path.clone()).collect()
}

#[test]
fn a_note_is_read_whole() {
    let note = parse_note(
        "/v/features/auth.md",
        "---\ntype: feature\nsummary: \"How users log in\"\nfiles:\n  - src/auth.rs\n  - 'lib/b.py:12'\n\
         tags:\n  - not/a/file.rs\nfile-registry:\n- Main.java\n---\n\n# Authentication\n\n\
         Calls `login()` and `Session`, not `two words`, see `src/extra.go` and `9lives`.\n\
         Again `Session`.\n\n\
         | File | Why |\n|---|---|\n| `src/table.ts` | x |\n| plain | y |\n\n\
         ```rust\nfn f() { `hidden` } // [[nowhere]] `src/fenced.rs`\n```\n\
         See [[other/note]], [[Third#Part|shown]] and [[other/note]].\n",
    );
    assert_eq!(note.path, "/v/features/auth.md");
    assert_eq!(note.title, "Authentication");
    assert_eq!(note.note_type, "feature");
    assert_eq!(note.summary, "How users log in");
    assert_eq!(
        ref_paths(&note),
        vec!["src/auth.rs", "lib/b.py", "Main.java", "src/table.ts", "src/extra.go"]
    );
    assert_eq!(note.file_refs[1].line, Some(12));
    assert_eq!(note.file_refs[0].line, None);
    assert!(note.file_refs[2].is_bare_filename);
    assert!(!note.file_refs[0].is_bare_filename);
    assert_eq!(note.code_idents, vec!["login", "Session"]);
    assert_eq!(note.wikilinks, vec!["other/note", "Third"]);
}

#[test]
fn a_note_without_frontmatter_is_named_by_its_file() {
    let note = parse_note("/v/plain.md", "Just text.\n");
    assert_eq!(note.title, "plain");
    assert_eq!(note.note_type, "note");
    assert_eq!(note.summary, "");
    assert!(note.file_refs.is_empty() && note.code_idents.is_empty() && note.wikilinks.is_empty());
    let note = parse_note("/v/plain.md", "---\ntitle: Said\n---\nText\n");
    assert_eq!(note.title, "Said");
}

#[test]
fn frontmatter_ends_at_the_next_fence() {
    assert_eq!(
        split_frontmatter("---\na: b\n---\nbody"),
        ("\na: b".to_string(), "\nbody".to_string())
    );
    assert_eq!(
        split_frontmatter("---\nno end"),
        (String::new(), "---\nno end".to_string())
    );
    assert_eq!(
        split_frontmatter("text\n---\nx\n---\n"),
        (String::new(), "text\n---\nx\n---\n".to_string())
    );
}

#[test]
fn a_reference_ends_whole_names() {
    assert!(ref_matches_path("auth.rs", "/p/src/auth.rs"));
    assert!(ref_matches_path("src/auth.rs", "/p/src/auth.rs"));
    assert!(!ref_matches_path("auth.rs", "/p/src/oauth.rs"));
    assert!(!ref_matches_path("lib/auth.rs", "/p/src/auth.rs"));
}

#[test]
fn the_editors_own_files_are_no_notes() {
    assert!(is_vault_internal("/p/.doctrack/.obsidian/app.md"));
    assert!(is_vault_internal("/p/.doctrack/.trash/x.md"));
    assert!(!is_vault_internal("/p/.doctrack/obsidian/x.md"));
    assert!(!is_vault_internal("/p/.doctrack/a.obsidian"));
}

#[test]
fn paths_are_written_one_way() {
    for (given, written) in [
        ("/p//a/./b/", "/p/a/b"),
        ("a/b", "a/b"),
        ("./a", "./a"),
        ("a/./b/.", "a/b"),
        ("a/../b", "a/../b"),
        ("/", "/"),
        ("", ""),
    ] {
        assert_eq!(paths::normalize(given), written);
        assert_eq!(paths::normalize(written), written);
        assert_eq!(paths::components_of(given), paths::components_of(written));
    }
}

#[test]
fn paths_have_names_stems_and_extensions() {
    let some = |s: &str| Some(s.to_string());
    assert_eq!(paths::file_name("/p/a.b.rs"), some("a.b.rs"));
    assert_eq!(paths::file_name("/p/.."), None);
    assert_eq!(paths::file_name("/"), None);
    assert_eq!(paths::file_stem("/p/a.b.rs"), some("a.b"));
    assert_eq!(paths::extension("/p/a.b.rs"), some("rs"));
    assert_eq!(paths::extension("/p/.rs"), None);
    assert_eq!(paths::file_stem("/p/.rs"), some(".rs"));
    assert_eq!(paths::extension("/p/a."), some(""));
    assert_eq!(paths::join("/p", "a/b"), "/p/a/b");
    assert_eq!(paths::join("/p", "/q"), "/q");
    assert_eq!(paths::join("/p/", "a"), "/p/a");
    assert!(paths::starts_with("/p/a/b", "/p/a"));
    assert!(!paths::starts_with("/p/ab", "/p/a"));
    assert!(paths::frames("/p/a/b/c.rs", "/p", "a", "c.rs"));
    assert!(paths::frames("/p/a/c.rs", "/p/", "a/", "c.rs"));
    assert!(!paths::frames("/p/a/b/cc.rs", "/p", "a", "c.rs"));
    assert!(!paths::frames("/p/ab/c.rs", "/p", "a", "c.rs"));
    assert!(!paths::frames("/p/a", "/p", "a", "a"));
    assert!(!paths::frames("/q/a/c.rs", "/p", "a", "c.rs"));
    assert!(paths::ends_with("/p/a/b", "a/b"));
}

#[test]
fn paths_are_ordered_by_their_components() {
    let sorted = sort_paths(&strings(&["b", "a/z", "a", "a-b", "a/b", "/c", "a/b"]));
    assert_eq!(sorted, strings(&["/c", "a", "a/b", "a/b", "a/z", "a-b", "b"]));
    assert_eq!(sort_paths(&vec![]), Vec::<String>::new());
}

#[test]
fn the_order_of_paths_is_that_of_std() {
    let list = strings(&["x/y", "./x", "../a", "x", "/x", "/", "x//z", "é", "Z", "x.y/a", "x/é"]);
    let mut expected = list.clone();
    expected.sort_by(|a, b| std::path::Path::new(a).cmp(std::path::Path::new(b)));
    assert_eq!(sort_paths(&list), expected);
}

#[test]
fn texts_are_searched_and_taken_apart() {
    assert!(text::contains_text("abcabd", "abd"));
    assert!(!text::contains_text("abc", "abd"));
    assert!(text::contains_text("abc", ""));
    assert!(text::eq_ignore_case("Straße", "sTRAßE"));
    assert!(!text::eq_ignore_case("Ä", "ä"));
    assert_eq!(text::split("a||b", '|'), strings(&["a", "", "b"]));
    assert_eq!(text::split("", '|'), strings(&[""]));
    assert_eq!(text::trim(" \t a b \u{2003}\n"), "a b");
    assert_eq!(text::trim("  "), "");
    assert!(text::blank("\u{85}\u{a0} "));
    assert!(!text::blank(" x "));
    assert_eq!(text::between("[[a]] b [[c", "[[", "]]"), strings(&["a"]));
    assert_eq!(text::between("`a``b`", "`", "`"), strings(&["a", "b"]));
    assert_eq!(text::decimal_text(0), "0");
    assert_eq!(text::decimal_text(u64::MAX), "18446744073709551615");
    assert_eq!(text::parse_number("007"), Some(7));
    assert_eq!(text::parse_number(""), None);
    assert_eq!(text::parse_number("1_0"), None);
    assert_eq!(
        text::without_repeats(&strings(&["b", "a", "b", "c", "a"])),
        strings(&["b", "a", "c"])
    );
}

#[test]
fn white_space_is_that_of_std() {
    for n in 0..0x3100u32 {
        if let Some(c) = char::from_u32(n) {
            assert_eq!(text::space(c), c.is_whitespace(), "{n:x}");
        }
    }
}

#[test]
fn tables_find_replace_and_forget() {
    let mut t: Table<String, bool> = Table::new();
    assert_eq!(t.len(), 0);
    assert_eq!(t.insert("a".to_string(), true), None);
    assert_eq!(t.insert("b".to_string(), false), None);
    assert_eq!(t.insert("c".to_string(), true), None);
    assert_eq!(t.insert("a".to_string(), false), Some(true));
    assert_eq!(t.get(&"a".to_string()), Some(&false));
    assert_eq!(t.len(), 3);
    // The last entry takes the place of the one that is removed.
    assert_eq!(t.remove(&"a".to_string()), Some(false));
    assert_eq!(t.remove(&"a".to_string()), None);
    assert_eq!(t.get(&"a".to_string()), None);
    assert_eq!((t.key_at(0).as_str(), *t.value_at(0)), ("c", true));
    assert_eq!((t.key_at(1).as_str(), *t.value_at(1)), ("b", false));
}

#[test]
fn a_table_can_keep_its_order_when_a_key_leaves() {
    let mut t: Table<String, bool> = Table::new();
    for key in ["a", "b", "c", "d"] {
        t.insert(key.to_string(), key == "c");
    }
    t.remove_in_order(&"b".to_string());
    t.remove_in_order(&"x".to_string());
    let keys: Vec<&str> = (0..t.len()).map(|i| t.key_at(i).as_str()).collect();
    assert_eq!(keys, vec!["a", "c", "d"]);
    assert_eq!(t.get(&"b".to_string()), None);
    assert_eq!(t.get(&"c".to_string()), Some(&true));
    assert_eq!(t.get(&"d".to_string()), Some(&false));
    t.remove_in_order(&"d".to_string());
    assert_eq!(t.len(), 2);
}

#[test]
fn what_cannot_be_scored_is_told() {
    assert!(scorable("title", &"a".repeat(2_520)));
    assert!(!scorable("title", &"a".repeat(2_521)));
    assert!(scorable(&"a".repeat(131_073), "stem"));
    assert!(!scorable(&"a".repeat(131_074), "stem"));
    assert!(text_fits("fn a() {}"));
    // Letters that fold twice are in the way only where the title has an accent.
    for odd in [
        '\u{b5}', '\u{17f}', '\u{345}', '\u{3c2}', '\u{3d0}', '\u{3d1}', '\u{3d5}', '\u{3d6}', '\u{3f0}',
        '\u{3f1}', '\u{3f5}', '\u{13f8}', '\u{13fd}', '\u{1c80}', '\u{1c88}', '\u{1e9b}', '\u{1fbe}',
        '\u{ab70}', '\u{abbf}',
    ] {
        let stem = format!("s{odd}ge");
        assert!(!scorable("s\u{e4}ge", &stem), "{odd}");
        for title in ["sage", "\u{b5}", "\u{43f}\u{438}\u{43b}\u{430}", "\u{952f}", "\u{3c2}"] {
            assert!(scorable(title, &stem), "{title} {odd}");
        }
    }
    for plain in ['s', 'S', '\u{e4}', '\u{3c3}', '\u{df}', '\u{3d2}', '\u{13f7}', '\u{ab6f}'] {
        assert!(scorable("s\u{e4}ge", &format!("s{plain}ge")), "{plain}");
    }
    for accent in ['\u{c0}', '\u{36f}', '\u{1d00}', '\u{1eff}', '\u{212b}', '\u{2c62}', '\u{a7c5}'] {
        assert!(!scorable(&format!("{accent}x"), "\u{b5}"), "{accent}");
        assert!(scorable(&format!("{accent}x"), "m"), "{accent}");
    }
}

/// Scoring does not stop on any file name for a title without accents, and on none without letters
/// that fold twice for a title with them.
#[test]
fn odd_file_names_are_scored_and_linked() {
    let mut index = Index::new("/p", "/p/.doctrack");
    let odd = ["\u{b5}", "\u{17f}age_sage", "\u{3c2}", "\u{13f8}x", "\u{1c80}", "\u{ab70}\u{abbf}"];
    for stem in odd {
        index.set_symbols(&format!("/p/{stem}.rs"), vec![]);
    }
    for title in ["sage", "s \u{3c3}", "\u{b5}", "\u{43f}\u{438}"] {
        let note = parse_note("/p/.doctrack/n.md", &format!("# {title}\n"));
        assert!(index.scores(&note.title), "{title}");
        assert!(index.can_link(&note, &Disk::new()), "{title}");
        index.update_note(note, &Disk::new());
    }
    let note = parse_note("/p/.doctrack/n.md", "# s\u{e4}ge\n");
    assert!(!index.scores(&note.title));
    assert!(!index.can_link(&note, &Disk::new()));
}

#[test]
fn lists_of_files_are_read_as_they_are_written() {
    let refs = |head: &str| -> Vec<String> {
        let note = parse_note("/v/x.md", &format!("---\n{head}\n---\n# X\n"));
        note.file_refs.into_iter().map(|r| r.path).collect()
    };
    assert_eq!(refs("files: [a.rs, b.rs]"), vec!["a.rs", "b.rs"]);
    assert_eq!(
        refs("files: [ 'app/[id]/page.tsx', \"b, c.rs\" ] # two"),
        vec!["app/[id]/page.tsx", "b, c.rs"]
    );
    assert_eq!(refs("file-registry: [\n  a.rs, # first\n  b.rs\n]\nfiles:\n- c.rs"), vec![
        "a.rs", "b.rs", "c.rs"
    ]);
    assert_eq!(refs("files: []"), Vec::<String>::new());
    assert_eq!(
        refs("files: # all of them\n  - a.rs # the first\n\n  # another\n  - \"b#c.rs\"\n  - d#e.rs"),
        vec!["a.rs", "b#c.rs", "d#e.rs"]
    );
    assert_eq!(refs("files:\n  - a.rs\ntype: x\n  - b.rs"), vec!["a.rs"]);
    // A list that is not closed runs to the end.
    assert_eq!(refs("files: [a.rs,\n  b.rs"), vec!["a.rs", "b.rs"]);
    let note = parse_note("/v/x.md", "---\ntype: feature # kind\nsummary: 'a # b' # c\n---\n# T # U\n");
    assert_eq!(note.note_type, "feature");
    assert_eq!(note.summary, "a # b");
    assert_eq!(note.title, "T # U");
}

#[test]
fn identifiers_may_have_letters_beyond_ascii() {
    let note = parse_note("/v/x.md", "# X\n\n`gr\u{f6}\u{df}e`, `\u{6570}()`, `a\u{a0}b`, `1\u{e4}`, `\u{e4}1`\n");
    assert_eq!(
        note.code_idents,
        vec!["gr\u{f6}\u{df}e", "\u{6570}", "\u{e4}1"]
    );
}
