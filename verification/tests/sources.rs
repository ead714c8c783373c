use manix::comments_docsource::{scan_path_allowed, CommentDocumentation, CommentsDatabase};
use manix::lifecycle::{classify, must_rebuild_all, CacheState};
use manix::nixpkgs_tree_docsource::{flatten_namespaces, NixpkgsTreeDatabase};
use manix::options_docsource::{OptionDocumentation, OptionsDatabase, OptionsDatabaseType};
use manix::xml_docsource::{
    extract_functions, index_functions, split_lines_exec, str_eq, XmlFuncDocDatabase,
    XmlFuncDocumentation, XmlNode, XmlNodeKind, XmlTree,
};
use manix::{AggregateDocSource, DocEntry, DocSource, Lowercase, Source};

fn opt(name: &str) -> (String, OptionDocumentation) {
    (
        name.to_string(),
        OptionDocumentation::new(
            "doc".to_string(),
            false,
            name.split('.').map(|s| s.to_string()).collect(),
            "string".to_string(),
        ),
    )
}

#[test]
fn aggregate_merges_strict_and_liberal_results() {
    // Source A indexes "foo", source B indexes "barfoo": the strict (prefix)
    // search finds only A's entry, the liberal (substring) search finds both.
    let mut a = NixpkgsTreeDatabase::new();
    a.update_from_keys(vec!["foo".to_string()]);
    let mut b = NixpkgsTreeDatabase::new();
    b.update_from_keys(vec!["barfoo".to_string()]);
    let mut agg = AggregateDocSource::new();
    agg.add_source(Source::Tree(a));
    agg.add_source(Source::Tree(b));

    let q = Lowercase(b"foo");
    let strict: Vec<String> = agg.search(&q).iter().map(|e| e.name()).collect();
    assert_eq!(strict, vec!["foo".to_string()]);
    let liberal: Vec<String> = agg.search_liberal(&q).iter().map(|e| e.name()).collect();
    assert_eq!(liberal, vec!["foo".to_string(), "barfoo".to_string()]);
    assert_eq!(agg.all_keys().len(), 2);
}

#[test]
fn aggregate_keeps_duplicates_across_sources() {
    // The same name may appear in two sources; nothing deduplicates it.
    let mut a = NixpkgsTreeDatabase::new();
    a.update_from_keys(vec!["foo".to_string()]);
    let mut b = NixpkgsTreeDatabase::new();
    b.update_from_keys(vec!["foo".to_string()]);
    let mut agg = AggregateDocSource::new();
    agg.add_source(Source::Tree(a));
    agg.add_source(Source::Tree(b));
    assert_eq!(agg.search(&Lowercase(b"foo")).len(), 2);
}

#[test]
fn options_update_compares_keys_as_sets() {
    // The same key set in another order is no change; a new key is.
    let mut db = OptionsDatabase::new(OptionsDatabaseType::NixOS);
    let changed = db.update_from_options(vec![opt("a.b"), opt("c.d")]);
    assert!(changed);
    let changed = db.update_from_options(vec![opt("c.d"), opt("a.b")]);
    assert!(!changed);
    let changed = db.update_from_options(vec![opt("c.d"), opt("e.f")]);
    assert!(changed);
}

#[test]
fn tree_update_compares_keys_as_sets() {
    let mut db = NixpkgsTreeDatabase::new();
    assert!(db.update_from_keys(vec!["x".to_string(), "y".to_string()]));
    assert!(!db.update_from_keys(vec!["y".to_string(), "x".to_string()]));
    assert!(db.update_from_keys(vec!["x".to_string()]));
}

#[test]
fn comment_definitions_without_comments_stay_listed_but_unsearchable() {
    let mut db = CommentsDatabase::new();
    db.apply_parsed(vec![(
        5,
        vec![
            CommentDocumentation::new("documented".to_string(), vec!["# yes".to_string()]),
            CommentDocumentation::new("bare".to_string(), vec![]),
        ],
    )]);
    let keys: Vec<String> = db.all_keys().iter().map(|k| k.to_string()).collect();
    assert_eq!(keys, vec!["documented".to_string(), "bare".to_string()]);
    assert_eq!(db.search(&Lowercase(b"bare")).len(), 0);
    assert_eq!(db.search_liberal(&Lowercase(b"bare")).len(), 0);
    assert_eq!(db.search(&Lowercase(b"doc")).len(), 1);
}

#[test]
fn option_name_and_rendering() {
    let (_, d) = opt("services.nginx.enable");
    assert_eq!(d.name(), "services.nginx.enable");
    assert_eq!(
        d.pretty_printed(),
        "# services.nginx.enable\ndoc\ntype: string\n\n"
    );
}

#[test]
fn entry_source_labels() {
    let (_, d) = opt("a");
    assert_eq!(
        DocEntry::OptionDoc(OptionsDatabaseType::NixOS, d.clone()).source(),
        "NixOS Options"
    );
    assert_eq!(
        DocEntry::OptionDoc(OptionsDatabaseType::HomeManager, d.clone()).source(),
        "HomeManager Options"
    );
    assert_eq!(
        DocEntry::OptionDoc(OptionsDatabaseType::NixDarwin, d).source(),
        "NixDarwin Options"
    );
    assert_eq!(
        DocEntry::NixpkgsTreeDoc("x".to_string()).source(),
        "Nixpkgs Tree"
    );
    assert_eq!(
        DocEntry::NixpkgsTreeDoc("x".to_string()).pretty_printed(),
        "x"
    );
}

#[test]
fn version_stamp_mismatch_forces_rebuild() {
    // A stamp that differs from the running version invalidates every cache,
    // whatever the other inputs say.
    let state = classify(&Some("0.6.2".to_string()), "0.6.3");
    assert_eq!(state, CacheState::Invalid);
    assert!(must_rebuild_all(state, false, false));
    assert!(must_rebuild_all(state, true, true));
}

#[test]
fn matching_stamp_loads_unless_something_changed() {
    let state = classify(&Some("0.6.3".to_string()), "0.6.3");
    assert_eq!(state, CacheState::Valid);
    assert!(!must_rebuild_all(state, false, false));
    assert!(must_rebuild_all(state, true, false));
    assert!(must_rebuild_all(state, false, true));
    assert_eq!(classify(&None, "0.6.3"), CacheState::Fresh);
    assert!(must_rebuild_all(CacheState::Fresh, false, false));
}

#[test]
fn namespaces_flatten_to_dotted_paths() {
    let flat = flatten_namespaces(&vec![
        ("python3Packages".to_string(), vec!["requests".to_string(), "flask".to_string()]),
        ("lib".to_string(), vec![]),
    ]);
    assert_eq!(
        flat,
        vec![
            "python3Packages".to_string(),
            "python3Packages.requests".to_string(),
            "python3Packages.flask".to_string(),
            "lib".to_string(),
        ]
    );
}

#[test]
fn indexing_keeps_the_last_entry_per_name() {
    let a = XmlFuncDocumentation::new(
        "f".to_string(), "first".to_string(), None, vec![], None,
    );
    let b = XmlFuncDocumentation::new(
        "f".to_string(), "second".to_string(), None, vec![], None,
    );
    let g = XmlFuncDocumentation::new(
        "g".to_string(), "other".to_string(), None, vec![], None,
    );
    let index = index_functions(vec![a, g, b.clone()]);
    assert_eq!(index.len(), 2);
    assert_eq!(index[0].0, "f");
    assert_eq!(index[0].1, b);
    assert_eq!(index[1].0, "g");
}

fn xn(kind: XmlNodeKind, name: &str, content: &str, parent: Option<usize>) -> XmlNode {
    XmlNode { kind, name: name.to_string(), content: content.to_string(), parent }
}

/// A manual page with one function section, in document order.
fn manual_tree() -> XmlTree {
    XmlTree {
        nodes: vec![
            xn(XmlNodeKind::Other, "", "", None),                      // 0: document
            xn(XmlNodeKind::Element, "section", "", Some(0)),          // 1
            xn(XmlNodeKind::Element, "title", "", Some(1)),            // 2
            xn(XmlNodeKind::Element, "function", "", Some(2)),         // 3
            xn(XmlNodeKind::Text, "", "lib.mkIf", Some(3)),            // 4
            xn(XmlNodeKind::Element, "subtitle", "", Some(1)),         // 5
            xn(XmlNodeKind::Element, "literal", "", Some(5)),          // 6
            xn(XmlNodeKind::Text, "", "bool -> a -> a", Some(6)),      // 7
            xn(XmlNodeKind::Element, "para", "", Some(1)),             // 8
            xn(XmlNodeKind::Text, "", "Conditional value.", Some(8)),  // 9
            xn(XmlNodeKind::Element, "variablelist", "", Some(1)),     // 10
            xn(XmlNodeKind::Element, "varlistentry", "", Some(10)),    // 11
            xn(XmlNodeKind::Element, "varname", "", Some(11)),         // 12
            xn(XmlNodeKind::Text, "", "cond", Some(12)),               // 13
            xn(XmlNodeKind::Element, "para", "", Some(11)),            // 14
            xn(XmlNodeKind::Text, "", "the condition", Some(14)),      // 15
            xn(XmlNodeKind::Element, "example", "", Some(1)),          // 16
            xn(XmlNodeKind::Element, "programlisting", "", Some(16)),  // 17
            xn(XmlNodeKind::Text, "", "mkIf true 1", Some(17)),        // 18
        ],
    }
}

#[test]
fn function_section_extracts_all_parts() {
    let tree = manual_tree();
    let fns = extract_functions(&tree).unwrap();
    assert_eq!(fns.len(), 1);
    let expected = XmlFuncDocumentation::new(
        "lib.mkIf".to_string(),
        "Conditional value.".to_string(),
        Some("bool -> a -> a".to_string()),
        vec![("cond".to_string(), "the condition".to_string())],
        Some("mkIf true 1".to_string()),
    );
    assert_eq!(fns[0], expected);
}

#[test]
fn section_without_description_is_skipped() {
    let mut tree = manual_tree();
    // Rename every para so no description is found.
    tree.nodes[8].name = "note".to_string();
    tree.nodes[14].name = "note".to_string();
    let fns = extract_functions(&tree).unwrap();
    assert_eq!(fns.len(), 0);
}

#[test]
fn section_without_function_title_is_skipped() {
    let mut tree = manual_tree();
    tree.nodes[3].name = "emphasis".to_string();
    let fns = extract_functions(&tree).unwrap();
    assert_eq!(fns.len(), 0);
}

#[test]
fn xml_entry_renders_every_part() {
    let tree = manual_tree();
    let fns = extract_functions(&tree).unwrap();
    assert_eq!(
        fns[0].pretty_printed(),
        "# lib.mkIf (bool -> a -> a)\nConditional value.\n\nArguments:\n  cond: the condition\n\nExample:\n  mkIf true 1\n"
    );
    let mut db = XmlFuncDocDatabase::new();
    db.update_from_functions(index_functions(fns));
    assert_eq!(db.search(&Lowercase(b"lib.mkif")).len(), 1);
    assert_eq!(db.search(&Lowercase(b"mkif")).len(), 0);
    assert_eq!(db.search_liberal(&Lowercase(b"mkif")).len(), 1);
}

#[test]
fn lines_split_like_the_rendering_expects() {
    let lines = split_lines_exec("a\nb\r\nc\n");
    assert_eq!(lines, vec!["a".to_string(), "b".to_string(), "c".to_string()]);
    assert_eq!(split_lines_exec(""), Vec::<String>::new());
    assert_eq!(split_lines_exec("one"), vec!["one".to_string()]);
}

#[test]
fn string_equality_compares_characters() {
    assert!(str_eq("para", "para"));
    assert!(!str_eq("para", "par"));
    assert!(!str_eq("para", "para "));
    assert!(str_eq("", ""));
}

#[test]
fn scan_path_exclusion_is_a_plain_substring_match() {
    assert!(scan_path_allowed("pkgs/lib/default.nix", false, true));
    assert!(!scan_path_allowed("pkgs/test/default.nix", false, true));
    // The exclusion is substring-based on the whole path, a known rough edge:
    // a package named "attestor" is excluded too.
    assert!(!scan_path_allowed("pkgs/attestor/default.nix", false, true));
    assert!(!scan_path_allowed("pkgs/lib", true, false));
    assert!(!scan_path_allowed("pkgs/lib/readme.md", false, false));
}
