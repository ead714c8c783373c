use manix::codec::Cache;
use manix::comments_docsource::{
    content_hash, CommentDocumentation, CommentsDatabase,
};
use manix::nixpkgs_tree_docsource::NixpkgsTreeDatabase;
use manix::options_docsource::{OptionDocumentation, OptionsDatabase, OptionsDatabaseType};
use manix::xml_docsource::{XmlFuncDocDatabase, XmlFuncDocumentation};
use manix::{DocSource, Errors, Lowercase};

#[test]
fn crc32_of_known_content() {
    // The CRC32 (IEEE) check value for "123456789".
    assert_eq!(content_hash(b"123456789"), 0xCBF43926);
    assert_eq!(content_hash(b""), 0);
    assert_ne!(content_hash(b"a"), content_hash(b"b"));
}

fn def(key: &str, comments: &[&str]) -> CommentDocumentation {
    CommentDocumentation::new(
        key.to_string(),
        comments.iter().map(|c| c.to_string()).collect(),
    )
}

#[test]
fn update_twice_is_a_no_op() {
    // Incremental extraction is idempotent: a second update over unchanged
    // content selects nothing, reports no change, and keeps the map as it is.
    let mut db = CommentsDatabase::new();
    let content_a = "{ foo = x: x; }";
    let content_b = "{ bar = y: y; }";
    let hashes = vec![
        content_hash(content_a.as_bytes()),
        content_hash(content_b.as_bytes()),
    ];
    let missing = db.missing_hashes(&hashes);
    assert_eq!(missing, hashes);
    let parsed = vec![
        (missing[0], vec![def("foo", &["# a"])]),
        (missing[1], vec![def("bar", &[])]),
    ];
    let changed = db.apply_parsed(parsed);
    assert!(changed);
    let snapshot = db.hash_to_defs.clone();

    let missing_again = db.missing_hashes(&hashes);
    assert_eq!(missing_again, Vec::<u32>::new());
    let changed_again = db.apply_parsed(vec![]);
    assert!(!changed_again);
    assert_eq!(db.hash_to_defs, snapshot);
}

#[test]
fn changed_byte_reextracts_only_that_file() {
    // Changing one byte of a file changes its content hash; only that file is
    // selected again, and the other file's cached definitions stay identical.
    let mut db = CommentsDatabase::new();
    let stable = "{ foo = x: x; }";
    let before = "{ bar = y: y; }";
    let after = "{ baz = y: y; }";
    assert_ne!(content_hash(before.as_bytes()), content_hash(after.as_bytes()));
    let h_stable = content_hash(stable.as_bytes());
    let h_before = content_hash(before.as_bytes());
    let h_after = content_hash(after.as_bytes());
    db.apply_parsed(vec![
        (h_stable, vec![def("foo", &["# stays"])]),
        (h_before, vec![def("bar", &[])]),
    ]);
    let stable_entry = db.hash_to_defs[0].clone();

    let missing = db.missing_hashes(&vec![h_stable, h_after]);
    assert_eq!(missing, vec![h_after]);
    let changed = db.apply_parsed(vec![(h_after, vec![def("baz", &[])])]);
    assert!(changed);
    assert_eq!(db.hash_to_defs[0], stable_entry);
    assert!(db.is_in_cache(h_before));
    assert!(db.is_in_cache(h_after));
}

fn search_names(db: &impl DocSource, query: &str) -> Vec<String> {
    let q = query.to_ascii_lowercase();
    db.search(&Lowercase(q.as_bytes()))
        .iter()
        .map(|e| e.name())
        .collect()
}

fn sorted_keys(db: &impl DocSource) -> Vec<String> {
    let mut keys: Vec<String> = db.all_keys().iter().map(|k| k.to_string()).collect();
    keys.sort();
    keys
}

#[test]
fn comments_cache_round_trips() {
    let mut db = CommentsDatabase::new();
    db.apply_parsed(vec![
        (7, vec![def("mkFoo", &["# builds foo"]), def("hüllo", &["/* ünïcode */"])]),
        (9, vec![def("mkBar", &[])]),
    ]);
    let blob = db.to_bytes();
    let back = CommentsDatabase::load(&blob).unwrap();
    assert_eq!(back.hash_to_defs, db.hash_to_defs);
    assert_eq!(sorted_keys(&back), sorted_keys(&db));
    assert_eq!(search_names(&back, "mk"), search_names(&db, "mk"));
}

#[test]
fn options_cache_round_trips() {
    let mut db = OptionsDatabase::new(OptionsDatabaseType::NixOS);
    db.update_from_options(vec![
        (
            "services.foo.enable".to_string(),
            OptionDocumentation::new(
                "Whether to enable foo.".to_string(),
                false,
                vec!["services".to_string(), "foo".to_string(), "enable".to_string()],
                "boolean".to_string(),
            ),
        ),
        (
            "services.foo.port".to_string(),
            OptionDocumentation::new(
                "The pörts.".to_string(),
                true,
                vec!["services".to_string(), "foo".to_string(), "port".to_string()],
                "signed integer".to_string(),
            ),
        ),
    ]);
    let blob = db.to_bytes();
    let back = OptionsDatabase::load(&blob).unwrap();
    assert_eq!(back.typ, db.typ);
    assert_eq!(back.options, db.options);
    assert_eq!(sorted_keys(&back), sorted_keys(&db));
    assert_eq!(search_names(&back, "services.foo"), search_names(&db, "services.foo"));
}

#[test]
fn xml_cache_round_trips() {
    let mut db = XmlFuncDocDatabase::new();
    db.update_from_functions(vec![(
        "lib.mkOption".to_string(),
        XmlFuncDocumentation::new(
            "lib.mkOption".to_string(),
            "Makes an option.".to_string(),
            Some("attrs -> option".to_string()),
            vec![("attrs".to_string(), "the attributes".to_string())],
            Some("mkOption { }\n".to_string()),
        ),
    )]);
    let blob = db.to_bytes();
    let back = XmlFuncDocDatabase::load(&blob).unwrap();
    assert_eq!(back.functions, db.functions);
    assert_eq!(sorted_keys(&back), sorted_keys(&db));
    assert_eq!(search_names(&back, "lib.mk"), search_names(&db, "lib.mk"));
}

#[test]
fn tree_cache_round_trips() {
    let mut db = NixpkgsTreeDatabase::new();
    db.update_from_keys(vec![
        "python3Packages".to_string(),
        "python3Packages.requests".to_string(),
    ]);
    let blob = db.to_bytes();
    let back = NixpkgsTreeDatabase::load(&blob).unwrap();
    assert_eq!(sorted_keys(&back), sorted_keys(&db));
    assert_eq!(search_names(&back, "python3"), search_names(&db, "python3"));
}

#[test]
fn malformed_blob_is_rejected() {
    // Garbage never decodes; a too-short count prefix never decodes.
    let garbage = vec![0xffu8; 5];
    assert!(matches!(
        CommentsDatabase::load(&garbage),
        Err(Errors::Deserialize { .. })
    ));
    assert!(matches!(
        NixpkgsTreeDatabase::load(&garbage),
        Err(Errors::Deserialize { .. })
    ));
    assert!(matches!(
        OptionsDatabase::load(&garbage),
        Err(Errors::Deserialize { .. })
    ));
    assert!(matches!(
        XmlFuncDocDatabase::load(&garbage),
        Err(Errors::Deserialize { .. })
    ));
}

#[test]
fn trailing_bytes_are_rejected() {
    let db = NixpkgsTreeDatabase::new();
    let mut blob = db.to_bytes();
    blob.push(0);
    assert!(matches!(
        NixpkgsTreeDatabase::load(&blob),
        Err(Errors::Deserialize { .. })
    ));
}

#[test]
fn duplicate_hash_blob_is_rejected() {
    // A blob whose entries repeat a content hash breaks the cache invariant.
    let mut db = CommentsDatabase::new();
    db.apply_parsed(vec![(1, vec![]), (2, vec![])]);
    let mut blob = db.to_bytes();
    // Rewrite the second entry's hash (little endian u32 after the first
    // entry: 8 count + 4 hash + 8 defs count) to repeat the first.
    blob[20] = 1;
    assert!(matches!(
        CommentsDatabase::load(&blob),
        Err(Errors::Deserialize { .. })
    ));
}

#[test]
fn error_messages_render() {
    let e = Errors::FileIo { filename: "a.nix".to_string(), message: "gone".to_string() };
    assert_eq!(e.message(), "IO error for file a.nix: gone");
    let e = Errors::CacheFileIo { message: "denied".to_string() };
    assert_eq!(e.message(), "failed to perform IO on a cache file: denied");
    let e = Errors::Serialize { message: "full".to_string() };
    assert_eq!(e.message(), "failed to serialize cache: full");
    let e = Errors::ExternalTool { message: "missing".to_string() };
    assert_eq!(e.message(), "external tool failed: missing");
    let e = Errors::Parse { message: "bad json".to_string() };
    assert_eq!(e.message(), "failed to parse an upstream document: bad json");
    let e = Errors::XmlParse { filename: "m.xml".to_string(), message: "bad".to_string() };
    assert_eq!(e.message(), "XML parsing error for file m.xml: bad");
    let e = Errors::Deserialize { message: "short".to_string() };
    assert_eq!(e.message(), "failed to deserialize cache: short");
}
