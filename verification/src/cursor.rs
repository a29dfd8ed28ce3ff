//! Resolving the identifier under a cursor offset together with its
//! syntactic path: the attribute-path segments or dotted-selection names
//! leading to it, outermost first.

use vstd::prelude::*;
use crate::tree::{segs_from, NodeKind, SyntaxTree, TokenHit};

verus! {

/// The identifier under the cursor: `path` holds the names of the
/// attribute-path or selection-chain segments before it, outermost first
/// and never including the identifier itself; `ident` is the identifier
/// node.
pub struct CursorInfo {
    pub path: Vec<String>,
    pub ident: usize,
}

/// Token `i` contains offset `off` strictly inside its span.
pub open spec fn strictly_inside(t: &SyntaxTree, i: int, off: int) -> bool {
    t.touches(i, off) && t.nodes[i].start < off && off < t.nodes[i].end
}

/// Token `i` ends exactly at offset `off`.
pub open spec fn left_at(t: &SyntaxTree, i: int, off: int) -> bool {
    t.touches(i, off) && t.nodes[i].end == off
}

/// Token `i` starts exactly at offset `off`.
pub open spec fn right_at(t: &SyntaxTree, i: int, off: int) -> bool {
    t.touches(i, off) && t.nodes[i].start == off
}

/// The identifier node owning token `tok`: its parent, when that parent is
/// an identifier node.
pub open spec fn parent_ident(t: &SyntaxTree, tok: int) -> Option<usize> {
    match t.nodes[tok].parent {
        Some(p) => if t.nodes[p as int].kind == NodeKind::Ident {
            Some(p)
        } else {
            None
        },
        None => None,
    }
}

/// The identifier node at a byte offset: the token strictly containing the
/// offset when there is one; at a boundary between two tokens, the left
/// token's identifier parent is preferred, falling back to the right one's.
pub open spec fn cursor_ident_spec(t: &SyntaxTree, off: int) -> Option<usize> {
    if exists|i: int| strictly_inside(t, i, off) {
        parent_ident(t, choose|i: int| strictly_inside(t, i, off))
    } else if (exists|i: int| left_at(t, i, off)) && (exists|i: int| right_at(t, i, off)) {
        match parent_ident(t, choose|i: int| left_at(t, i, off)) {
            Some(p) => Some(p),
            None => parent_ident(t, choose|i: int| right_at(t, i, off)),
        }
    } else if exists|i: int| left_at(t, i, off) {
        parent_ident(t, choose|i: int| left_at(t, i, off))
    } else if exists|i: int| right_at(t, i, off) {
        parent_ident(t, choose|i: int| right_at(t, i, off))
    } else {
        None
    }
}

/// The names of the segments of an attribute path before the segment
/// `ident`, in order; `None` when a segment before it is not a plain
/// identifier, or when `ident` does not occur among the segments.
pub open spec fn names_before(t: &SyntaxTree, ss: Seq<usize>, ident: usize) -> Option<
    Seq<Seq<char>>,
>
    decreases ss.len(),
{
    if ss.len() == 0 {
        None
    } else if ss[0] == ident {
        Some(seq![])
    } else if t.nodes[ss[0] as int].kind != NodeKind::Ident {
        None
    } else {
        match names_before(t, ss.drop_first(), ident) {
            Some(rest) => Some(seq![t.nodes[ss[0] as int].text@] + rest),
            None => None,
        }
    }
}

/// The names along a dotted selection chain, outermost first, starting at
/// the base expression `y` of a selection: while `y` is itself a selection,
/// its own base is walked first and its index name appended; a base that is
/// the cursor identifier itself contributes nothing, any other base must be
/// a plain identifier.
pub open spec fn select_chain(t: &SyntaxTree, y: usize, ident: usize) -> Option<Seq<Seq<char>>>
    decreases t.len() - y,
{
    if t.nodes[y as int].kind == NodeKind::Select {
        if t.segs(y as int).len() >= 2 {
            let s = t.segs(y as int)[0];
            let ix = t.segs(y as int)[1];
            if y < s < t.len() {
                match select_chain(t, s, ident) {
                    Some(pre) => if t.nodes[ix as int].kind == NodeKind::Ident {
                        Some(pre.push(t.nodes[ix as int].text@))
                    } else {
                        None
                    },
                    None => None,
                }
            } else {
                None
            }
        } else {
            None
        }
    } else if y == ident {
        Some(seq![])
    } else if t.nodes[y as int].kind == NodeKind::Ident {
        Some(seq![t.nodes[y as int].text@])
    } else {
        None
    }
}

/// The selection path for an identifier whose parent is the selection node
/// `par`: the chain of its base expression.
pub open spec fn select_path_at(t: &SyntaxTree, par: usize, ident: usize) -> Option<
    Seq<Seq<char>>,
> {
    if t.segs(par as int).len() >= 1 {
        select_chain(t, t.segs(par as int)[0], ident)
    } else {
        None
    }
}

/// What `ident_at` returns: the path names and the identifier node, or
/// `None` when no identifier is resolvable at the offset.
pub open spec fn ident_at_spec(t: &SyntaxTree, off: int) -> Option<(Seq<Seq<char>>, usize)> {
    match cursor_ident_spec(t, off) {
        Some(id) => match t.nodes[id as int].parent {
            Some(par) => {
                if t.nodes[par as int].kind == NodeKind::Key {
                    match names_before(t, t.segs(par as int), id) {
                        Some(p) => Some((p, id)),
                        None => None,
                    }
                } else if t.nodes[par as int].kind == NodeKind::Select {
                    match select_path_at(t, par, id) {
                        Some(p) => Some((p, id)),
                        None => None,
                    }
                } else {
                    Some((seq![], id))
                }
            },
            None => Some((seq![], id)),
        },
        None => None,
    }
}

/// The identifier node owning token `tok`, when its parent is an
/// identifier node.
fn parent_ident_exec(t: &SyntaxTree, tok: usize) -> (r: Option<usize>)
    requires
        t.wf(),
        tok < t.nodes.len(),
    ensures
        r == parent_ident(t, tok as int),
        r matches Some(p) ==> p < t.nodes.len() && t.nodes[p as int].kind == NodeKind::Ident,
{
    proof {
        assert(t.wf_node(tok as int));
    }
    match t.nodes[tok].parent {
        Some(p) => {
            if matches!(t.nodes[p].kind, NodeKind::Ident) {
                Some(p)
            } else {
                None
            }
        },
        None => None,
    }
}

/// Reverse the order of a vector of names.
fn reversed(v: Vec<String>) -> (r: Vec<String>)
    ensures
        r.deep_view() == v.deep_view().reverse(),
{
    let mut r: Vec<String> = Vec::new();
    let mut j: usize = v.len();
    while j > 0
        invariant
            j <= v.len(),
            r.len() == v.len() - j,
            forall|m: int|
                0 <= m < r.len() ==> r.deep_view()[m] == v.deep_view()[v.len() - 1 - m],
        decreases j,
    {
        j = j - 1;
        let s = v[j].clone();
        let ghost old_r = r.deep_view();
        r.push(s);
        proof {
            assert(r.deep_view() =~= old_r.push(v[j as int]@));
        }
    }
    proof {
        assert(r.deep_view() =~= v.deep_view().reverse());
    }
    r
}

/// Locate the identifier at byte offset `offset` and reconstruct its
/// syntactic path: the attribute-path segments before it when it is part of
/// a key, the selection names before it when it is the index of a dotted
/// selection, and the empty path for a bare identifier.  `None` when
/// nothing identifier-like sits at the offset or the surrounding tree has
/// an unexpected shape.
#[verifier::loop_isolation(false)]
pub fn ident_at(tree: &SyntaxTree, offset: usize) -> (r: Option<CursorInfo>)
    requires
        tree.wf(),
    ensures
        ({
            let spec_r = ident_at_spec(tree, offset as int);
            match r {
                Some(ci) => spec_r matches Some(pr) && ci.path.deep_view() == pr.0 && ci.ident
                    == pr.1,
                None => spec_r is None,
            }
        }),
{
    let ghost off = offset as int;
    let hit = tree.token_at_offset(offset);
    let idopt: Option<usize> = match hit {
        TokenHit::NoToken => {
            proof {
                if exists|i: int| strictly_inside(tree, i, off) {
                    let i = choose|i: int| strictly_inside(tree, i, off);
                    assert(tree.touches(i, off));
                }
                if exists|i: int| left_at(tree, i, off) {
                    let i = choose|i: int| left_at(tree, i, off);
                    assert(tree.touches(i, off));
                }
                if exists|i: int| right_at(tree, i, off) {
                    let i = choose|i: int| right_at(tree, i, off);
                    assert(tree.touches(i, off));
                }
            }
            None
        },
        TokenHit::Single(tk) => {
            proof {
                let ti = tk as int;
                assert(tree.wf_node(ti));
                if strictly_inside(tree, ti, off) {
                    let c = choose|i: int| strictly_inside(tree, i, off);
                    assert(tree.touches(c, off));
                    assert(c == ti);
                } else {
                    assert(!(exists|i: int| strictly_inside(tree, i, off))) by {
                        if exists|i: int| strictly_inside(tree, i, off) {
                            let c = choose|i: int| strictly_inside(tree, i, off);
                            assert(tree.touches(c, off));
                            assert(c == ti);
                        }
                    }
                    if tree.nodes[ti].end == off {
                        assert(left_at(tree, ti, off));
                        assert(!(exists|i: int| right_at(tree, i, off))) by {
                            if exists|i: int| right_at(tree, i, off) {
                                let c = choose|i: int| right_at(tree, i, off);
                                assert(tree.touches(c, off));
                                assert(c == ti);
                            }
                        }
                        let c = choose|i: int| left_at(tree, i, off);
                        assert(tree.touches(c, off));
                        assert(c == ti);
                    } else {
                        assert(right_at(tree, ti, off));
                        assert(!(exists|i: int| left_at(tree, i, off))) by {
                            if exists|i: int| left_at(tree, i, off) {
                                let c = choose|i: int| left_at(tree, i, off);
                                assert(tree.touches(c, off));
                                assert(c == ti);
                            }
                        }
                        let c = choose|i: int| right_at(tree, i, off);
                        assert(tree.touches(c, off));
                        assert(c == ti);
                    }
                }
            }
            parent_ident_exec(tree, tk)
        },
        TokenHit::Boundary(lt, rt) => {
            proof {
                let li = lt as int;
                let ri = rt as int;
                assert(tree.wf_node(li));
                assert(tree.wf_node(ri));
                assert(!(exists|i: int| strictly_inside(tree, i, off))) by {
                    if exists|i: int| strictly_inside(tree, i, off) {
                        let c = choose|i: int| strictly_inside(tree, i, off);
                        assert(tree.touches(c, off));
                        assert(c == li || c == ri);
                    }
                }
                assert(left_at(tree, li, off));
                assert(right_at(tree, ri, off));
                let cl = choose|i: int| left_at(tree, i, off);
                assert(tree.touches(cl, off));
                assert(cl == li || cl == ri);
                assert(cl == li);
                let cr = choose|i: int| right_at(tree, i, off);
                assert(tree.touches(cr, off));
                assert(cr == li || cr == ri);
                assert(cr == ri);
            }
            match parent_ident_exec(tree, lt) {
                Some(p) => Some(p),
                None => parent_ident_exec(tree, rt),
            }
        },
    };
    proof {
        assert(idopt == cursor_ident_spec(tree, off));
    }
    let id = match idopt {
        Some(id) => id,
        None => {
            return None;
        },
    };
    proof {
        assert(tree.wf_node(id as int));
    }
    let par = match tree.nodes[id].parent {
        Some(p) => p,
        None => {
            return Some(CursorInfo { path: Vec::new(), ident: id });
        },
    };
    if matches!(tree.nodes[par].kind, NodeKind::Key) {
        let n_children = tree.nodes[par].children.len();
        proof {
            assert(tree.nodes[par as int].children@.skip(0) =~= tree.nodes[par as int].children@);
        }
        let mut path: Vec<String> = Vec::new();
        let mut ci: usize = 0;
        while ci < n_children
            invariant
                ci <= n_children,
                n_children == tree.nodes[par as int].children.len(),
                tree.wf(),
                (par as int) < tree.len(),
                id < tree.nodes.len(),
                tree.nodes[id as int].kind == NodeKind::Ident,
                ({
                    let full = names_before(tree, tree.segs(par as int), id);
                    let tail = names_before(
                        tree,
                        segs_from(tree, tree.nodes[par as int].children@.skip(ci as int)),
                        id,
                    );
                    &&& (tail matches Some(rest) ==> full == Some(path.deep_view() + rest))
                    &&& (tail is None ==> full is None)
                }),
                forall|m: int|
                    0 <= m < ci ==> tree.nodes[par as int].children@[m] != id,
            decreases n_children - ci,
        {
            let c = tree.nodes[par].children[ci];
            proof {
                assert(tree.wf_node(par as int));
                let csq = tree.nodes[par as int].children@;
                assert(csq.skip(ci as int)[0] == csq[ci as int]);
                assert(csq.skip(ci as int).drop_first() =~= csq.skip(ci as int + 1));
                let rest = segs_from(tree, csq.skip(ci as int + 1));
                if tree.nodes[c as int].kind != NodeKind::Token {
                    assert(segs_from(tree, csq.skip(ci as int)) =~= seq![c] + rest);
                    assert((seq![c] + rest)[0] == c);
                    assert((seq![c] + rest).drop_first() =~= rest);
                } else {
                    assert(segs_from(tree, csq.skip(ci as int)) =~= rest);
                }
            }
            if c == id {
                proof {
                    let tailseq = segs_from(
                        tree,
                        tree.nodes[par as int].children@.skip(ci as int),
                    );
                    assert(tailseq[0] == id);
                    assert(names_before(tree, tailseq, id) == Some(Seq::<Seq<char>>::empty()));
                    assert(path.deep_view() + Seq::<Seq<char>>::empty() =~= path.deep_view());
                }
                return Some(CursorInfo { path, ident: id });
            }
            match tree.nodes[c].kind {
                NodeKind::Token => {},
                NodeKind::Ident => {
                    let ghost old_path = path.deep_view();
                    let ghost tailseq = segs_from(
                        tree,
                        tree.nodes[par as int].children@.skip(ci as int),
                    );
                    path.push(tree.nodes[c].text.clone());
                    proof {
                        assert(path.deep_view() =~= old_path.push(
                            tree.nodes[c as int].text@,
                        ));
                        let tail2 = names_before(
                            tree,
                            segs_from(
                                tree,
                                tree.nodes[par as int].children@.skip(ci as int + 1),
                            ),
                            id,
                        );
                        match tail2 {
                            Some(rest2) => {
                                assert(old_path + (seq![tree.nodes[c as int].text@] + rest2)
                                    =~= path.deep_view() + rest2);
                            },
                            None => {},
                        }
                    }
                },
                _ => {
                    return None;
                },
            }
            ci = ci + 1;
        }
        proof {
            assert(tree.nodes[id as int].parent == Some(par));
            assert(tree.nodes[par as int].children@.contains(id));
            let m = choose|m: int|
                0 <= m < tree.nodes[par as int].children@.len() && tree.nodes[
                    par as int
                ].children@[m] == id;
            assert(false);
        }
        None
    } else if matches!(tree.nodes[par].kind, NodeKind::Select) {
        let (set0_opt, _) = tree.first_two_segs(par);
        let set0 = match set0_opt {
            Some(s) => s,
            None => {
                return None;
            },
        };
        proof {
            if tree.segs(par as int).len() == 0 {
                assert(false);
            }
            assert(set0 == tree.segs(par as int)[0]);
            assert(select_path_at(tree, par, id) == select_chain(tree, set0, id));
        }
        let mut cur: usize = set0;
        let mut rev: Vec<String> = Vec::new();
        while matches!(tree.nodes[cur].kind, NodeKind::Select)
            invariant
                tree.wf(),
                cur < tree.nodes.len(),
                id < tree.nodes.len(),
                ({
                    let full = select_chain(tree, set0, id);
                    let here = select_chain(tree, cur, id);
                    &&& (here matches Some(pre) ==> full == Some(
                        pre + rev.deep_view().reverse(),
                    ))
                    &&& (here is None ==> full is None)
                }),
            decreases tree.nodes.len() - cur,
        {
            let (s_opt, ix_opt) = tree.first_two_segs(cur);
            let (s, ix) = match (s_opt, ix_opt) {
                (Some(s), Some(ix)) => (s, ix),
                _ => {
                    proof {
                        if tree.segs(cur as int).len() >= 2 {
                            assert(false);
                        }
                        assert(select_chain(tree, cur, id) is None);
                    }
                    return None;
                },
            };
            proof {
                if tree.segs(cur as int).len() < 2 {
                    assert(false);
                }
                assert(s == tree.segs(cur as int)[0]);
                assert(ix == tree.segs(cur as int)[1]);
            }
            if !(matches!(tree.nodes[ix].kind, NodeKind::Ident)) {
                return None;
            }
            let ghost old_rev = rev.deep_view();
            rev.push(tree.nodes[ix].text.clone());
            proof {
                assert(rev.deep_view() =~= old_rev.push(tree.nodes[ix as int].text@));
                let here2 = select_chain(tree, s, id);
                match here2 {
                    Some(pre2) => {
                        assert(pre2.push(tree.nodes[ix as int].text@) + old_rev.reverse()
                            =~= pre2 + rev.deep_view().reverse());
                    },
                    None => {},
                }
            }
            cur = s;
        }
        if cur == id {
            let path = reversed(rev);
            proof {
                assert(select_chain(tree, cur, id) == Some(Seq::<Seq<char>>::empty()));
                assert(Seq::<Seq<char>>::empty() + rev.deep_view().reverse()
                    =~= rev.deep_view().reverse());
            }
            return Some(CursorInfo { path, ident: id });
        }
        if matches!(tree.nodes[cur].kind, NodeKind::Ident) {
            let ghost old_rev = rev.deep_view();
            rev.push(tree.nodes[cur].text.clone());
            proof {
                assert(rev.deep_view() =~= old_rev.push(tree.nodes[cur as int].text@));
                assert(seq![tree.nodes[cur as int].text@] + old_rev.reverse()
                    =~= rev.deep_view().reverse());
            }
            let path = reversed(rev);
            return Some(CursorInfo { path, ident: id });
        }
        None
    } else {
        Some(CursorInfo { path: Vec::new(), ident: id })
    }
}

} // verus!
