use manix::comments_docsource::{
    cleanup_comment, extract_definitions, find_comments, Binding, ElementKind, SyntaxElement,
    SyntaxTree,
};

fn elem(kind: ElementKind, text: &str, parent: Option<usize>, prev: Option<usize>) -> SyntaxElement {
    SyntaxElement { kind, text: text.to_string(), parent, prev }
}

/// The arena of `{ # does a thing\n foo = x: x; }`, in preorder.
fn commented_binding_tree() -> SyntaxTree {
    SyntaxTree {
        elems: vec![
            elem(ElementKind::Other, "", None, None),            // 0: root expression
            elem(ElementKind::AttrSet, "", Some(0), None),       // 1: { ... }
            elem(ElementKind::Other, "", Some(1), None),         // 2: `{`
            elem(ElementKind::Trivia, "", Some(1), Some(2)),     // 3: whitespace
            elem(ElementKind::Comment, "# does a thing", Some(1), Some(3)), // 4
            elem(ElementKind::Trivia, "", Some(1), Some(4)),     // 5: newline
            elem(ElementKind::Other, "", Some(1), Some(5)),      // 6: the binding
            elem(ElementKind::AttrPath, "", Some(6), None),      // 7: `foo`
            elem(ElementKind::Ident, "foo", Some(7), None),      // 8
            elem(ElementKind::Trivia, "", Some(6), Some(7)),     // 9
            elem(ElementKind::Assign, "", Some(6), Some(9)),     // 10: `=`
            elem(ElementKind::Trivia, "", Some(6), Some(10)),    // 11
            elem(ElementKind::Lambda, "", Some(6), Some(11)),    // 12: `x: x`
        ],
        bindings: vec![Binding { key: 8, value: 12 }],
    }
}

#[test]
fn binding_with_comment_yields_definition() {
    let tree = commented_binding_tree();
    let defs = extract_definitions(&tree, "pkgs/default.nix").unwrap();
    assert_eq!(defs.len(), 1);
    assert_eq!(defs[0].key, "foo");
    assert_eq!(defs[0].comments, vec!["# does a thing".to_string()]);
    assert_eq!(defs[0].path, Some("pkgs/default.nix".to_string()));
}

/// The arena of `{ ...; bar = x: x; }` where the binding's previous sibling
/// is the closing token of another binding.
fn uncommented_binding_tree() -> SyntaxTree {
    SyntaxTree {
        elems: vec![
            elem(ElementKind::Other, "", None, None),         // 0: root expression
            elem(ElementKind::AttrSet, "", Some(0), None),    // 1: { ... }
            elem(ElementKind::Other, "", Some(1), None),      // 2: `{`
            elem(ElementKind::Other, "", Some(1), Some(2)),   // 3: an earlier binding
            elem(ElementKind::Other, "", Some(1), Some(3)),   // 4: its `;`
            elem(ElementKind::Other, "", Some(1), Some(4)),   // 5: the binding
            elem(ElementKind::AttrPath, "", Some(5), None),   // 6: `bar`
            elem(ElementKind::Ident, "bar", Some(6), None),   // 7
            elem(ElementKind::Assign, "", Some(5), Some(6)),  // 8: `=`
            elem(ElementKind::Lambda, "", Some(5), Some(8)),  // 9: `x: x`
        ],
        bindings: vec![Binding { key: 7, value: 9 }],
    }
}

#[test]
fn binding_without_comment_yields_empty_comments() {
    let tree = uncommented_binding_tree();
    let defs = extract_definitions(&tree, "a.nix").unwrap();
    assert_eq!(defs.len(), 1);
    assert_eq!(defs[0].key, "bar");
    assert_eq!(defs[0].comments, Vec::<String>::new());
}

#[test]
fn scan_reaching_root_attaches_nothing() {
    // A binding at the top of the file: the backward scan ascends to the root
    // without hitting a stop, so even an earlier comment is discarded.
    let tree = SyntaxTree {
        elems: vec![
            elem(ElementKind::Other, "", None, None),              // 0: root
            elem(ElementKind::Comment, "# lost", Some(0), None),   // 1
            elem(ElementKind::AttrPath, "", Some(0), Some(1)),     // 2
            elem(ElementKind::Ident, "foo", Some(2), None),        // 3
            elem(ElementKind::Assign, "", Some(0), Some(2)),       // 4
            elem(ElementKind::Lambda, "", Some(0), Some(4)),       // 5
        ],
        bindings: vec![Binding { key: 3, value: 5 }],
    };
    assert_eq!(find_comments(&tree, 5), None);
    let defs = extract_definitions(&tree, "top.nix").unwrap();
    assert_eq!(defs.len(), 1);
    assert_eq!(defs[0].comments, Vec::<String>::new());
}

#[test]
fn binding_of_wrong_shape_is_skipped() {
    // A binding whose value is not a function yields no definition.
    let mut tree = commented_binding_tree();
    tree.elems[12].kind = ElementKind::Other;
    let defs = extract_definitions(&tree, "x.nix").unwrap();
    assert_eq!(defs.len(), 0);
}

#[test]
fn malformed_arena_is_rejected() {
    // A forward-pointing parent makes the arena invalid.
    let tree = SyntaxTree {
        elems: vec![elem(ElementKind::Other, "", Some(3), None)],
        bindings: vec![],
    };
    assert!(extract_definitions(&tree, "bad.nix").is_none());
    assert!(!tree.wf_check());
}

#[test]
fn cleanup_strips_comment_markers() {
    assert_eq!(cleanup_comment("# does a thing"), " does a thing");
    assert_eq!(cleanup_comment("### heading"), " heading");
    assert_eq!(cleanup_comment("/* block */"), " block ");
    assert_eq!(cleanup_comment("/*/**/"), "");
    assert_eq!(cleanup_comment("plain"), "plain");
    assert_eq!(cleanup_comment(""), "");
    assert_eq!(cleanup_comment("*/"), "");
}

#[test]
fn comment_pretty_printed_cleans_and_joins() {
    let doc = manix::comments_docsource::CommentDocumentation::new(
        "mkThing".to_string(),
        vec!["# first".to_string(), "# second".to_string()],
    )
    .with_path("lib/things.nix".to_string());
    assert_eq!(
        doc.pretty_printed(),
        "# mkThing (lib/things.nix)\n first\n second\n\n"
    );
}
