//! Nested selection ranges: the chain of enclosing syntactic spans around
//! a cursor position, innermost first, collapsing consecutive ancestors
//! that cover the same span.

use vstd::prelude::*;
use crate::cursor::{left_at, right_at, strictly_inside};
use crate::position::{
    col16_at, is_boundary, line_at, lookup_pos, lookup_pos_spec, range, utf8_len, Position, Range,
};
use crate::tree::{SyntaxTree, TokenHit};

verus! {

/// One link of the selection chain: a textual range and, optionally, the
/// next outer range.  The outermost link has no parent.
pub struct SelectionRange {
    pub range: Range,
    pub parent: Option<Box<SelectionRange>>,
}

/// The ranges of a selection chain, innermost first.
pub open spec fn chain_of(sr: SelectionRange) -> Seq<Range>
    decreases sr,
{
    match sr.parent {
        Some(b) => seq![sr.range] + chain_of(*b),
        None => seq![sr.range],
    }
}

/// Node `i`'s span lies on character boundaries of the text `s`.
pub open spec fn node_span_ok(t: &SyntaxTree, s: Seq<char>, i: int) -> bool {
    is_boundary(s, t.nodes[i].start as int) && is_boundary(s, t.nodes[i].end as int)
}

/// Every node span of the tree lies on character boundaries of `s`: the
/// tree was parsed from this text.
pub open spec fn spans_on_boundaries(t: &SyntaxTree, s: Seq<char>) -> bool {
    forall|i: int| 0 <= i < t.len() ==> #[trigger] node_span_ok(t, s, i)
}

/// The token chosen at a byte offset with left bias: the token strictly
/// containing the offset, else the token ending at it, else the token
/// starting at it.
pub open spec fn token_left_biased(t: &SyntaxTree, off: int) -> Option<usize> {
    if exists|i: int| strictly_inside(t, i, off) {
        Some((choose|i: int| strictly_inside(t, i, off)) as usize)
    } else if exists|i: int| left_at(t, i, off) {
        Some((choose|i: int| left_at(t, i, off)) as usize)
    } else if exists|i: int| right_at(t, i, off) {
        Some((choose|i: int| right_at(t, i, off)) as usize)
    } else {
        None
    }
}

/// The spans of a node and its ancestors, innermost first, consecutive
/// duplicates collapsed.
pub open spec fn anc_spans(t: &SyntaxTree, i: usize) -> Seq<(usize, usize)>
    decreases i,
{
    let sp = (t.nodes[i as int].start, t.nodes[i as int].end);
    let rest = match t.nodes[i as int].parent {
        Some(p) => if p < i {
            anc_spans(t, p)
        } else {
            seq![]
        },
        None => seq![],
    };
    if rest.len() > 0 && rest[0] == sp {
        rest
    } else {
        seq![sp] + rest
    }
}

/// The deduplicated ancestor spans around a textual position, when the
/// position denotes a byte offset that touches a token.
pub open spec fn selection_spans_at(
    t: &SyntaxTree,
    s: Seq<char>,
    line: int,
    character: int,
) -> Option<Seq<(usize, usize)>> {
    match lookup_pos_spec(s, line, character) {
        Some(k) => match token_left_biased(t, utf8_len(s.take(k))) {
            Some(tok) => Some(anc_spans(t, tok)),
            None => None,
        },
        None => None,
    }
}

/// Range `r` is the textual rendering of byte span `sp` of text `s`.
pub open spec fn range_matches_span(s: Seq<char>, r: Range, sp: (usize, usize)) -> bool {
    &&& r.start.line == line_at(s, sp.0 as int)
    &&& r.start.character == col16_at(s, sp.0 as int)
    &&& r.end.line == line_at(s, sp.1 as int)
    &&& r.end.character == col16_at(s, sp.1 as int)
}

/// The chain renders exactly the byte spans `spans`, in order.
pub open spec fn chain_matches(s: Seq<char>, sr: SelectionRange, spans: Seq<(usize, usize)>) -> bool {
    &&& chain_of(sr).len() == spans.len()
    &&& forall|j: int|
        0 <= j < spans.len() ==> #[trigger] range_matches_span(s, chain_of(sr)[j], spans[j])
}

/// How the remaining ancestor spans look once `last` was just emitted:
/// a leading duplicate of it is dropped.
pub open spec fn merge_tail(last: Option<(usize, usize)>, rest: Seq<(usize, usize)>) -> Seq<
    (usize, usize),
> {
    match last {
        Some(l) => if rest.len() > 0 && rest[0] == l {
            rest.drop_first()
        } else {
            rest
        },
        None => rest,
    }
}

/// Decide whether every node span of the tree lies on character
/// boundaries of `content`, so that a caller can test the precondition of
/// `selection_ranges` on an arbitrary tree and text.
#[verifier::loop_isolation(false)]
pub fn check_spans(tree: &SyntaxTree, content: &str) -> (r: bool)
    ensures
        r == spans_on_boundaries(tree, content@),
{
    let n = tree.nodes.len();
    let mut i: usize = 0;
    while i < n
        invariant
            i <= n,
            forall|x: int| 0 <= x < i ==> #[trigger] node_span_ok(tree, content@, x),
        decreases n - i,
    {
        let s_ok = crate::position::check_boundary(content, tree.nodes[i].start);
        let e_ok = crate::position::check_boundary(content, tree.nodes[i].end);
        if !(s_ok && e_ok) {
            proof {
                assert(!node_span_ok(tree, content@, i as int));
            }
            return false;
        }
        i = i + 1;
    }
    true
}

/// Consecutive spans of the deduplicated ancestor chain strictly grow:
/// each outer span contains the inner one and never coincides with it.
pub proof fn lemma_selection_spans_nested(t: &SyntaxTree, i: usize)
    requires
        t.wf(),
        (i as int) < t.len(),
    ensures
        ({
            let sp = anc_spans(t, i);
            &&& sp.len() >= 1
            &&& sp[0] == (t.nodes[i as int].start, t.nodes[i as int].end)
            &&& forall|j: int|
                0 <= j < sp.len() - 1 ==> sp[j + 1].0 <= (#[trigger] sp[j]).0 && sp[j].1 <= sp[
                    j + 1
                ].1 && sp[j] != sp[j + 1]
        }),
    decreases i,
{
    assert(t.wf_node(i as int));
    let spi = (t.nodes[i as int].start, t.nodes[i as int].end);
    match t.nodes[i as int].parent {
        Some(p) => {
            lemma_selection_spans_nested(t, p);
            let rest = anc_spans(t, p);
            if rest.len() > 0 && rest[0] == spi {
            } else {
                let sp = anc_spans(t, i);
                assert(sp =~= seq![spi] + rest);
                assert forall|j: int| 0 <= j < sp.len() - 1 implies sp[j + 1].0 <= (
                #[trigger] sp[j]).0 && sp[j].1 <= sp[j + 1].1 && sp[j] != sp[j + 1] by {
                    if j == 0 {
                        assert(sp[1] == rest[0]);
                    } else {
                        assert(sp[j] == rest[j - 1]);
                        assert(sp[j + 1] == rest[j]);
                    }
                }
            }
        },
        None => {},
    }
}

/// Locate the token at byte offset `off` with left bias.
fn pick_token(tree: &SyntaxTree, off: usize) -> (r: Option<usize>)
    requires
        tree.wf(),
    ensures
        r == token_left_biased(tree, off as int),
        r matches Some(tok) ==> tok < tree.nodes.len(),
{
    let ghost offi = off as int;
    let hit = tree.token_at_offset(off);
    match hit {
        TokenHit::NoToken => {
            proof {
                if exists|i: int| strictly_inside(tree, i, offi) {
                    let i = choose|i: int| strictly_inside(tree, i, offi);
                    assert(tree.touches(i, offi));
                }
                if exists|i: int| left_at(tree, i, offi) {
                    let i = choose|i: int| left_at(tree, i, offi);
                    assert(tree.touches(i, offi));
                }
                if exists|i: int| right_at(tree, i, offi) {
                    let i = choose|i: int| right_at(tree, i, offi);
                    assert(tree.touches(i, offi));
                }
            }
            None
        },
        TokenHit::Single(t) => {
            proof {
                let ti = t as int;
                assert(tree.wf_node(ti));
                if strictly_inside(tree, ti, offi) {
                    let c = choose|i: int| strictly_inside(tree, i, offi);
                    assert(tree.touches(c, offi));
                    assert(c == ti);
                } else {
                    assert(!(exists|i: int| strictly_inside(tree, i, offi))) by {
                        if exists|i: int| strictly_inside(tree, i, offi) {
                            let c = choose|i: int| strictly_inside(tree, i, offi);
                            assert(tree.touches(c, offi));
                            assert(c == ti);
                        }
                    }
                    if tree.nodes[ti].end == offi {
                        assert(left_at(tree, ti, offi));
                        let c = choose|i: int| left_at(tree, i, offi);
                        assert(tree.touches(c, offi));
                        assert(c == ti);
                    } else {
                        assert(right_at(tree, ti, offi));
                        assert(!(exists|i: int| left_at(tree, i, offi))) by {
                            if exists|i: int| left_at(tree, i, offi) {
                                let c = choose|i: int| left_at(tree, i, offi);
                                assert(tree.touches(c, offi));
                                assert(c == ti);
                            }
                        }
                        let c = choose|i: int| right_at(tree, i, offi);
                        assert(tree.touches(c, offi));
                        assert(c == ti);
                    }
                }
            }
            Some(t)
        },
        TokenHit::Boundary(l, rt) => {
            proof {
                let li = l as int;
                let ri = rt as int;
                assert(tree.wf_node(li));
                assert(tree.wf_node(ri));
                assert(!(exists|i: int| strictly_inside(tree, i, offi))) by {
                    if exists|i: int| strictly_inside(tree, i, offi) {
                        let c = choose|i: int| strictly_inside(tree, i, offi);
                        assert(tree.touches(c, offi));
                        assert(c == li || c == ri);
                    }
                }
                assert(left_at(tree, li, offi));
                let cl = choose|i: int| left_at(tree, i, offi);
                assert(tree.touches(cl, offi));
                assert(cl == li || cl == ri);
                assert(cl == li);
            }
            Some(l)
        },
    }
}

/// Walk the ancestors of `tok`, collecting their spans innermost first and
/// collapsing consecutive equal spans.
#[verifier::loop_isolation(false)]
fn collect_spans(tree: &SyntaxTree, content: &str, tok: usize) -> (spans: Vec<(usize, usize)>)
    requires
        tree.wf(),
        spans_on_boundaries(tree, content@),
        tok < tree.nodes.len(),
    ensures
        spans@ == anc_spans(tree, tok),
        spans.len() >= 1,
        forall|j: int|
            0 <= j < spans.len() ==> is_boundary(content@, (#[trigger] spans@[j]).0 as int)
                && is_boundary(content@, spans@[j].1 as int),
{
    let mut spans: Vec<(usize, usize)> = Vec::new();
    let mut cur_opt: Option<usize> = Some(tok);
    let mut last: Option<(usize, usize)> = None;
    while cur_opt.is_some()
        invariant
            cur_opt matches Some(c) ==> c < tree.nodes.len(),
            last is None ==> spans.len() == 0,
            last matches Some(l) ==> spans.len() > 0 && spans@.last() == l,
            anc_spans(tree, tok) == spans@ + merge_tail(
                last,
                match cur_opt {
                    Some(c) => anc_spans(tree, c),
                    None => seq![],
                },
            ),
            forall|j: int|
                0 <= j < spans.len() ==> is_boundary(content@, (#[trigger] spans@[j]).0 as int)
                    && is_boundary(content@, spans@[j].1 as int),
        decreases (match cur_opt {
            Some(c) => c as int + 1,
            None => 0int,
        }),
    {
        let c = cur_opt.unwrap();
        let sp = (tree.nodes[c].start, tree.nodes[c].end);
        proof {
            assert(tree.wf_node(c as int));
            assert(node_span_ok(tree, content@, c as int));
        }
        let ghost rest = match tree.nodes[c as int].parent {
            Some(p) => if p < c {
                anc_spans(tree, p)
            } else {
                Seq::<(usize, usize)>::empty()
            },
            None => Seq::<(usize, usize)>::empty(),
        };
        let push_it = match last {
            Some(l) => !(l.0 == sp.0 && l.1 == sp.1),
            None => true,
        };
        let ghost old_spans = spans@;
        if push_it {
            spans.push(sp);
            last = Some(sp);
        }
        proof {
            let tc = anc_spans(tree, c);
            if rest.len() > 0 && rest[0] == sp {
                assert(tc == rest);
            } else {
                assert(tc =~= seq![sp] + rest);
            }
            if push_it {
                assert(spans@ =~= old_spans.push(sp));
                assert(old_spans + tc =~= spans@ + merge_tail(Some(sp), rest)) by {
                    if rest.len() > 0 && rest[0] == sp {
                        assert(merge_tail(Some(sp), rest) =~= rest.drop_first());
                        assert(seq![sp] + rest.drop_first() =~= rest);
                    }
                }
            } else {
                assert(merge_tail(last, tc) =~= merge_tail(last, rest)) by {
                    assert(tc[0] == sp);
                    assert(tc.drop_first() =~= merge_tail(Some(sp), rest));
                }
            }
        }
        cur_opt = tree.nodes[c].parent;
    }
    proof {
        assert(anc_spans(tree, tok) =~= spans@ + merge_tail(last, Seq::<(usize, usize)>::empty()));
        assert(anc_spans(tree, tok) =~= spans@);
        lemma_selection_spans_nested(tree, tok);
        assert(spans@.len() >= 1);
    }
    spans
}

/// Link the spans into a selection chain, innermost first.
#[verifier::loop_isolation(false)]
fn build_chain(content: &str, spans: &Vec<(usize, usize)>) -> (r: SelectionRange)
    requires
        spans.len() >= 1,
        forall|j: int|
            0 <= j < spans.len() ==> is_boundary(content@, (#[trigger] spans@[j]).0 as int)
                && is_boundary(content@, spans@[j].1 as int),
    ensures
        chain_matches(content@, r, spans@),
{
    let mut m: usize = spans.len();
    let mut built: Option<SelectionRange> = None;
    while m > 0
        invariant
            m <= spans.len(),
            m == spans.len() ==> built is None,
            m < spans.len() ==> built is Some,
            built matches Some(b) ==> chain_of(b).len() == spans.len() - m && forall|j: int|
                0 <= j < chain_of(b).len() ==> range_matches_span(
                    content@,
                    chain_of(b)[j],
                    spans@[m + j],
                ),
        decreases m,
    {
        m = m - 1;
        let rng = range(content, spans[m].0, spans[m].1);
        let parent_box = match built {
            Some(b) => Some(Box::new(b)),
            None => None,
        };
        let node = SelectionRange { range: rng, parent: parent_box };
        proof {
            let np = node.parent;
            match np {
                Some(b) => {
                    assert(chain_of(node) =~= seq![rng] + chain_of(*b));
                },
                None => {
                    assert(chain_of(node) =~= seq![rng]);
                },
            }
        }
        built = Some(node);
    }
    match built {
        Some(b) => b,
        None => {
            proof {
                assert(false);
            }
            SelectionRange {
                range: range(content, spans[0].0, spans[0].1),
                parent: None,
            }
        },
    }
}

/// Build the chain of enclosing syntactic ranges around `pos`, innermost
/// first: locate the token there (preferring the left token at an exact
/// boundary), walk its ancestors, collapse consecutive equal spans, and
/// render each span as a textual range.  `None` when the position is out
/// of the text's bounds or no token touches it.
pub fn selection_ranges(tree: &SyntaxTree, content: &str, pos: Position) -> (r: Option<
    SelectionRange,
>)
    requires
        tree.wf(),
        spans_on_boundaries(tree, content@),
    ensures
        ({
            let spec_r = selection_spans_at(
                tree,
                content@,
                pos.line as int,
                pos.character as int,
            );
            match r {
                Some(sr) => spec_r matches Some(spans) && chain_matches(content@, sr, spans),
                None => spec_r is None,
            }
        }),
{
    let off = match lookup_pos(content, pos) {
        Some(off) => off,
        None => {
            return None;
        },
    };
    let tok = match pick_token(tree, off) {
        Some(tok) => tok,
        None => {
            return None;
        },
    };
    let spans = collect_spans(tree, content, tok);
    Some(build_chain(content, &spans))
}

} // verus!
