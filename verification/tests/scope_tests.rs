use nix_nav::scope::{populate, scope_for, FileId, Scope};
use nix_nav::tree::{NodeData, NodeKind, SyntaxTree};

fn node(
    kind: NodeKind,
    parent: Option<usize>,
    children: Vec<usize>,
    start: usize,
    end: usize,
    text: &str,
) -> NodeData {
    NodeData { kind, parent, children, start, end, text: text.to_string() }
}

/// The tree of `let a = 1; in let a = 2; in a`; node 10 is the innermost
/// use of `a`, node 4 the value `1`, node 9 the value `2`.
fn shadow_tree() -> SyntaxTree {
    SyntaxTree {
        nodes: vec![
            node(NodeKind::LetIn, None, vec![1, 5], 0, 29, ""),
            node(NodeKind::Entry, Some(0), vec![2, 4], 4, 10, ""),
            node(NodeKind::Key, Some(1), vec![3], 4, 5, ""),
            node(NodeKind::Ident, Some(2), vec![], 4, 5, "a"),
            node(NodeKind::Other, Some(1), vec![], 8, 9, "1"),
            node(NodeKind::LetIn, Some(0), vec![6, 10], 14, 29, ""),
            node(NodeKind::Entry, Some(5), vec![7, 9], 18, 24, ""),
            node(NodeKind::Key, Some(6), vec![8], 18, 19, ""),
            node(NodeKind::Ident, Some(7), vec![], 18, 19, "a"),
            node(NodeKind::Other, Some(6), vec![], 22, 23, "2"),
            node(NodeKind::Ident, Some(5), vec![], 28, 29, "a"),
        ],
    }
}

/// The tree of `x: x + 1`; node 2 is the body.
fn lambda_tree() -> SyntaxTree {
    SyntaxTree {
        nodes: vec![
            node(NodeKind::Lambda, None, vec![1, 2], 0, 8, ""),
            node(NodeKind::Ident, Some(0), vec![], 0, 1, "x"),
            node(NodeKind::Other, Some(0), vec![], 3, 8, ""),
        ],
    }
}

/// The tree of `{ a, b }: a`; node 6 is the body.
fn pattern_tree() -> SyntaxTree {
    SyntaxTree {
        nodes: vec![
            node(NodeKind::Lambda, None, vec![1, 6], 0, 11, ""),
            node(NodeKind::Pattern, Some(0), vec![2, 4], 0, 8, ""),
            node(NodeKind::PatEntry, Some(1), vec![3], 2, 3, ""),
            node(NodeKind::Ident, Some(2), vec![], 2, 3, "a"),
            node(NodeKind::PatEntry, Some(1), vec![5], 5, 6, ""),
            node(NodeKind::Ident, Some(4), vec![], 5, 6, "b"),
            node(NodeKind::Ident, Some(0), vec![], 10, 11, "a"),
        ],
    }
}

/// The tree of `rec { a = 1; b = a; }` (or the same set without `rec` when
/// `recursive` is false); node 8 is the use of `a` inside `b`'s value.
fn set_tree(recursive: bool) -> SyntaxTree {
    let kind = if recursive { NodeKind::AttrSetRec } else { NodeKind::AttrSet };
    SyntaxTree {
        nodes: vec![
            node(kind, None, vec![1, 5], 0, 21, ""),
            node(NodeKind::Entry, Some(0), vec![2, 4], 6, 12, ""),
            node(NodeKind::Key, Some(1), vec![3], 6, 7, ""),
            node(NodeKind::Ident, Some(2), vec![], 6, 7, "a"),
            node(NodeKind::Other, Some(1), vec![], 10, 11, "1"),
            node(NodeKind::Entry, Some(0), vec![6, 8], 14, 20, ""),
            node(NodeKind::Key, Some(5), vec![7], 14, 15, ""),
            node(NodeKind::Ident, Some(6), vec![], 14, 15, "b"),
            node(NodeKind::Ident, Some(5), vec![], 18, 19, "a"),
        ],
    }
}

#[test]
fn let_shadowing_inner_wins() {
    let t = shadow_tree();
    let s = scope_for(FileId(7), &t, 10).unwrap();
    let v = s.get("a").unwrap();
    assert_eq!(v.value, Some(9));
    assert_eq!(v.set, 5);
    assert_eq!(v.key, 8);
    assert_eq!(v.file, FileId(7));
    assert_eq!(s.len(), 1);
}

#[test]
fn outer_let_visible_when_not_shadowed() {
    let t = shadow_tree();
    // at the inner let's own entry value, both lets are walked; the inner
    // binding of `a` still wins
    let s = scope_for(FileId(0), &t, 9).unwrap();
    let v = s.get("a").unwrap();
    assert_eq!(v.value, Some(9));
}

#[test]
fn lambda_param_binding_has_no_value() {
    let t = lambda_tree();
    let s = scope_for(FileId(0), &t, 2).unwrap();
    let v = s.get("x").unwrap();
    assert_eq!(v.value, None);
    assert_eq!(v.set, 0);
    assert_eq!(v.key, 1);
    assert_eq!(s.len(), 1);
}

#[test]
fn pattern_params_bind_without_values() {
    let t = pattern_tree();
    let s = scope_for(FileId(0), &t, 6).unwrap();
    let va = s.get("a").unwrap();
    let vb = s.get("b").unwrap();
    assert_eq!(va.value, None);
    assert_eq!(vb.value, None);
    assert_eq!(va.key, 3);
    assert_eq!(vb.key, 5);
    assert_eq!(s.len(), 2);
}

#[test]
fn recursive_set_binds_own_entries() {
    let t = set_tree(true);
    let s = scope_for(FileId(0), &t, 8).unwrap();
    let v = s.get("a").unwrap();
    assert_eq!(v.value, Some(4));
    assert_eq!(v.set, 0);
    assert!(s.get("b").is_some());
}

#[test]
fn plain_set_does_not_bind() {
    let t = set_tree(false);
    let s = scope_for(FileId(0), &t, 8).unwrap();
    assert!(s.get("a").is_none());
    assert!(!s.contains_name("a"));
    assert_eq!(s.len(), 0);
}

#[test]
fn populate_collects_entries() {
    let t = set_tree(true);
    let mut s = Scope::new();
    let done = populate(FileId(3), &mut s, &t, 0);
    assert!(done.is_some());
    assert_eq!(s.len(), 2);
    assert_eq!(s.get("a").unwrap().value, Some(4));
    assert_eq!(s.get("b").unwrap().value, Some(8));
}

#[test]
fn populate_skips_malformed_entries() {
    // an entry without a value contributes nothing; the next entry still
    // gets collected
    let t = SyntaxTree {
        nodes: vec![
            node(NodeKind::LetIn, None, vec![1, 4], 0, 20, ""),
            node(NodeKind::Entry, Some(0), vec![2], 2, 5, ""),
            node(NodeKind::Key, Some(1), vec![3], 2, 3, ""),
            node(NodeKind::Ident, Some(2), vec![], 2, 3, "a"),
            node(NodeKind::Entry, Some(0), vec![5, 7], 8, 14, ""),
            node(NodeKind::Key, Some(4), vec![6], 8, 9, ""),
            node(NodeKind::Ident, Some(5), vec![], 8, 9, "b"),
            node(NodeKind::Other, Some(4), vec![], 12, 13, "1"),
        ],
    };
    let mut s = Scope::new();
    populate(FileId(0), &mut s, &t, 0);
    assert!(s.get("a").is_none());
    assert_eq!(s.get("b").unwrap().value, Some(7));
    assert_eq!(s.len(), 1);
}
