use nix_nav::position::{Position, Range};
use nix_nav::selection::{selection_ranges, SelectionRange};
use nix_nav::tree::{NodeData, NodeKind, SyntaxTree};

fn node(
    kind: NodeKind,
    parent: Option<usize>,
    children: Vec<usize>,
    start: usize,
    end: usize,
    text: &str,
) -> NodeData {
    NodeData { kind, parent, children, start, end, text: text.to_string() }
}

fn pos(line: usize, character: usize) -> Position {
    Position { line, character }
}

fn rng(sl: usize, sc: usize, el: usize, ec: usize) -> Range {
    Range { start: pos(sl, sc), end: pos(el, ec) }
}

/// The tree of `{ x = 1; }`; the value node and its token share a span.
fn attrset_tree() -> SyntaxTree {
    SyntaxTree {
        nodes: vec![
            node(NodeKind::AttrSet, None, vec![1, 2, 9], 0, 10, ""),
            node(NodeKind::Token, Some(0), vec![], 0, 1, "{"),
            node(NodeKind::Entry, Some(0), vec![3, 5, 6, 8], 2, 8, ""),
            node(NodeKind::Key, Some(2), vec![4], 2, 3, ""),
            node(NodeKind::Ident, Some(3), vec![], 2, 3, "x"),
            node(NodeKind::Token, Some(2), vec![], 4, 5, "="),
            node(NodeKind::Other, Some(2), vec![7], 6, 7, ""),
            node(NodeKind::Token, Some(6), vec![], 6, 7, "1"),
            node(NodeKind::Token, Some(2), vec![], 7, 8, ";"),
            node(NodeKind::Token, Some(0), vec![], 9, 10, "}"),
        ],
    }
}

fn chain_ranges(sr: &SelectionRange) -> Vec<Range> {
    let mut out = Vec::new();
    let mut cur: Option<&SelectionRange> = Some(sr);
    while let Some(c) = cur {
        out.push(c.range);
        cur = c.parent.as_deref();
    }
    out
}

#[test]
fn selection_ranges_nest_and_dedupe() {
    let t = attrset_tree();
    let code = "{ x = 1; }";
    let sr = selection_ranges(&t, code, pos(0, 6)).unwrap();
    let chain = chain_ranges(&sr);
    // the value node and its token cover the same span and collapse into
    // one link
    assert_eq!(chain, vec![rng(0, 6, 0, 7), rng(0, 2, 0, 8), rng(0, 0, 0, 10)]);
    // spans never shrink from inner to outer and adjacent links differ
    for w in chain.windows(2) {
        assert!(w[1].start.character <= w[0].start.character);
        assert!(w[0].end.character <= w[1].end.character);
        assert_ne!(w[0], w[1]);
    }
}

#[test]
fn selection_ranges_from_key() {
    let t = attrset_tree();
    let code = "{ x = 1; }";
    let sr = selection_ranges(&t, code, pos(0, 2)).unwrap();
    let chain = chain_ranges(&sr);
    assert_eq!(
        chain,
        vec![rng(0, 2, 0, 3), rng(0, 2, 0, 8), rng(0, 0, 0, 10)],
    );
}

#[test]
fn selection_ranges_out_of_bounds_position() {
    let t = attrset_tree();
    assert!(selection_ranges(&t, "{ x = 1; }", pos(3, 0)).is_none());
    assert!(selection_ranges(&t, "{ x = 1; }", pos(0, 99)).is_none());
}
