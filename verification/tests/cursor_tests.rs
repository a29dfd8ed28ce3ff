use nix_nav::cursor::ident_at;
use nix_nav::tree::{NodeData, NodeKind, SyntaxTree, TokenHit};

fn node(
    kind: NodeKind,
    parent: Option<usize>,
    children: Vec<usize>,
    start: usize,
    end: usize,
    text: &str,
) -> NodeData {
    NodeData { kind, parent, children, start, end, text: text.to_string() }
}

/// The tree of the source `a.b.c`.
fn selection_chain_tree() -> SyntaxTree {
    SyntaxTree {
        nodes: vec![
            node(NodeKind::Select, None, vec![1, 7, 8], 0, 5, ""),
            node(NodeKind::Select, Some(0), vec![2, 4, 5], 0, 3, ""),
            node(NodeKind::Ident, Some(1), vec![3], 0, 1, "a"),
            node(NodeKind::Token, Some(2), vec![], 0, 1, "a"),
            node(NodeKind::Token, Some(1), vec![], 1, 2, "."),
            node(NodeKind::Ident, Some(1), vec![6], 2, 3, "b"),
            node(NodeKind::Token, Some(5), vec![], 2, 3, "b"),
            node(NodeKind::Token, Some(0), vec![], 3, 4, "."),
            node(NodeKind::Ident, Some(0), vec![9], 4, 5, "c"),
            node(NodeKind::Token, Some(8), vec![], 4, 5, "c"),
        ],
    }
}

/// The tree of the source `{ a.b.c = 1; }`.
fn key_path_tree() -> SyntaxTree {
    SyntaxTree {
        nodes: vec![
            node(NodeKind::AttrSet, None, vec![1, 2, 16], 0, 14, ""),
            node(NodeKind::Token, Some(0), vec![], 0, 1, "{"),
            node(NodeKind::Entry, Some(0), vec![3, 12, 13, 15], 2, 12, ""),
            node(NodeKind::Key, Some(2), vec![4, 6, 7, 9, 10], 2, 7, ""),
            node(NodeKind::Ident, Some(3), vec![5], 2, 3, "a"),
            node(NodeKind::Token, Some(4), vec![], 2, 3, "a"),
            node(NodeKind::Token, Some(3), vec![], 3, 4, "."),
            node(NodeKind::Ident, Some(3), vec![8], 4, 5, "b"),
            node(NodeKind::Token, Some(7), vec![], 4, 5, "b"),
            node(NodeKind::Token, Some(3), vec![], 5, 6, "."),
            node(NodeKind::Ident, Some(3), vec![11], 6, 7, "c"),
            node(NodeKind::Token, Some(10), vec![], 6, 7, "c"),
            node(NodeKind::Token, Some(2), vec![], 8, 9, "="),
            node(NodeKind::Other, Some(2), vec![14], 10, 11, ""),
            node(NodeKind::Token, Some(13), vec![], 10, 11, "1"),
            node(NodeKind::Token, Some(2), vec![], 11, 12, ";"),
            node(NodeKind::Token, Some(0), vec![], 13, 14, "}"),
        ],
    }
}

#[test]
fn selection_chain_path_at_b() {
    let t = selection_chain_tree();
    let ci = ident_at(&t, 2).unwrap();
    assert_eq!(ci.path, vec!["a".to_string()]);
    assert_eq!(ci.ident, 5);
}

#[test]
fn selection_chain_path_at_a() {
    let t = selection_chain_tree();
    let ci = ident_at(&t, 0).unwrap();
    assert_eq!(ci.path, Vec::<String>::new());
    assert_eq!(ci.ident, 2);
}

#[test]
fn selection_chain_path_at_c() {
    let t = selection_chain_tree();
    let ci = ident_at(&t, 4).unwrap();
    assert_eq!(ci.path, vec!["a".to_string(), "b".to_string()]);
    assert_eq!(ci.ident, 8);
}

#[test]
fn key_path_at_middle_segment() {
    let t = key_path_tree();
    let ci = ident_at(&t, 4).unwrap();
    assert_eq!(ci.path, vec!["a".to_string()]);
    assert_eq!(ci.ident, 7);
}

#[test]
fn key_path_at_first_segment() {
    let t = key_path_tree();
    let ci = ident_at(&t, 2).unwrap();
    assert_eq!(ci.path, Vec::<String>::new());
    assert_eq!(ci.ident, 4);
}

#[test]
fn no_identifier_resolvable() {
    let t = selection_chain_tree();
    // outside the tree entirely
    assert!(ident_at(&t, 100).is_none());
    let kt = key_path_tree();
    // on the `=` token, whose parent is no identifier
    assert!(ident_at(&kt, 9).is_none());
}

#[test]
fn token_lookup_cases() {
    let t = selection_chain_tree();
    assert_eq!(t.token_at_offset(100), TokenHit::NoToken);
    assert_eq!(t.token_at_offset(0), TokenHit::Single(3));
    assert_eq!(t.token_at_offset(5), TokenHit::Single(9));
    assert_eq!(t.token_at_offset(2), TokenHit::Boundary(4, 6));
}
