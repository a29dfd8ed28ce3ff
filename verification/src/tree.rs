//! The syntax tree model: an arena of immutable nodes, each with a kind, a
//! byte span, a parent link and a list of children.
//!
//! Nodes are stored so that every parent comes before its children, which
//! makes both the upward ancestor walk and the downward selection-chain walk
//! terminate by construction.  Leaves (nodes without children) are the
//! tokens of the source text; a well-formed tree keeps their spans disjoint,
//! so at most two tokens can touch any byte offset.

use vstd::prelude::*;

verus! {

/// The syntactic kind of a tree node.
#[derive(Clone, Copy, PartialEq, Eq, Structural, Debug)]
pub enum NodeKind {
    /// An identifier node, wrapping one identifier token.
    Ident,
    /// An attribute path on the left of `=` in a binding, e.g. `a.b.c`.
    Key,
    /// A dotted selection expression reading a nested value, e.g. `a.b`.
    Select,
    /// A `let ... in ...` block.
    LetIn,
    /// A legacy `let { ... }` block.
    LegacyLet,
    /// A non-recursive attribute set.
    AttrSet,
    /// An attribute set marked recursive.
    AttrSetRec,
    /// A function definition with a single parameter.
    Lambda,
    /// A destructuring-pattern parameter of a function.
    Pattern,
    /// One `key = value;` entry of a set or let block.
    Entry,
    /// One named field of a destructuring pattern.
    PatEntry,
    /// A bare lexical token.
    Token,
    /// Any other syntactic construct.
    Other,
}

/// One node of the parsed tree.  `text` carries the name of an identifier
/// node and is empty elsewhere; `start` and `end` are byte offsets into the
/// source text.
pub struct NodeData {
    pub kind: NodeKind,
    pub parent: Option<usize>,
    pub children: Vec<usize>,
    pub start: usize,
    pub end: usize,
    pub text: String,
}

/// An immutable parsed tree, as an arena of nodes with node indices as
/// cheap handles.
pub struct SyntaxTree {
    pub nodes: Vec<NodeData>,
}

/// The outcome of looking up the token at a byte offset: no token touches
/// it, exactly one does, or it sits on the boundary between two.
#[derive(Clone, Copy, PartialEq, Eq, Structural, Debug)]
pub enum TokenHit {
    NoToken,
    Single(usize),
    Boundary(usize, usize),
}

/// The indices in `cs` whose nodes are not bare tokens: the syntactic
/// children of a node, in order.
pub open spec fn segs_from(t: &SyntaxTree, cs: Seq<usize>) -> Seq<usize>
    decreases cs.len(),
{
    if cs.len() == 0 {
        seq![]
    } else {
        let rest = segs_from(t, cs.drop_first());
        if t.nodes[cs[0] as int].kind != NodeKind::Token {
            seq![cs[0]] + rest
        } else {
            rest
        }
    }
}

/// The indices in `cs` whose nodes have kind `k`, in order.
pub open spec fn kids_of_kind_from(t: &SyntaxTree, cs: Seq<usize>, k: NodeKind) -> Seq<usize>
    decreases cs.len(),
{
    if cs.len() == 0 {
        seq![]
    } else {
        let rest = kids_of_kind_from(t, cs.drop_first(), k);
        if t.nodes[cs[0] as int].kind == k {
            seq![cs[0]] + rest
        } else {
            rest
        }
    }
}

impl SyntaxTree {
    /// Number of nodes in the arena.
    pub open spec fn len(&self) -> int {
        self.nodes.len() as int
    }

    /// The syntactic (non-token) children of node `i`, in order.
    pub open spec fn segs(&self, i: int) -> Seq<usize> {
        segs_from(self, self.nodes[i].children@)
    }

    /// The children of node `i` of kind `k`, in order.
    pub open spec fn kids_of_kind(&self, i: int, k: NodeKind) -> Seq<usize> {
        kids_of_kind_from(self, self.nodes[i].children@, k)
    }

    /// The kind of node `i`.
    pub open spec fn kind(&self, i: int) -> NodeKind {
        self.nodes[i].kind
    }

    /// A leaf node: a token of the source text.
    pub open spec fn is_leaf(&self, i: int) -> bool {
        self.nodes[i].children.len() == 0
    }

    /// Everything that must hold of one node: the parent stands before it
    /// in the arena and lists it as a child, its span lies within the
    /// parent's span, and a leaf's span is non-empty.
    pub open spec fn wf_node(&self, i: int) -> bool {
        let n = self.nodes[i];
        &&& (n.parent matches Some(p) ==> (p as int) < i
            && self.nodes[p as int].children@.contains(i as usize)
            && self.nodes[p as int].start <= n.start
            && n.end <= self.nodes[p as int].end)
        &&& n.start <= n.end
        &&& (n.children.len() == 0 ==> n.start < n.end)
        &&& (forall|j: int|
            0 <= j < n.children.len() ==> ({
                let c = (#[trigger] n.children[j]) as int;
                &&& i < c
                &&& c < self.len()
                &&& self.nodes[c].parent == Some(i as usize)
            }))
    }

    /// The spans of nodes `i` and `j` do not overlap.
    pub open spec fn spans_disjoint(&self, i: int, j: int) -> bool {
        self.nodes[i].end <= self.nodes[j].start || self.nodes[j].end <= self.nodes[i].start
    }

    /// A well-formed tree: every node is well formed and the spans of any
    /// two distinct tokens are disjoint.
    pub open spec fn wf(&self) -> bool {
        &&& (forall|i: int| 0 <= i < self.len() ==> #[trigger] self.wf_node(i))
        &&& (forall|i: int, j: int|
            0 <= i < self.len() && 0 <= j < self.len() && i != j && self.is_leaf(i)
                && self.is_leaf(j) ==> #[trigger] self.spans_disjoint(i, j))
    }

    /// Token `i` touches byte offset `off`: the offset lies on or within
    /// its span, boundaries included.
    pub open spec fn touches(&self, i: int, off: int) -> bool {
        &&& 0 <= i < self.len()
        &&& self.is_leaf(i)
        &&& self.nodes[i].start <= off <= self.nodes[i].end
    }

    /// Locate the token at byte offset `offset`: none, exactly one, or the
    /// two tokens whose boundary the offset sits on (in text order).
    pub fn token_at_offset(&self, offset: usize) -> (r: TokenHit)
        requires
            self.wf(),
        ensures
            (r is NoToken) <==> (forall|j: int| !self.touches(j, offset as int)),
            r matches TokenHit::Single(t) ==> self.touches(t as int, offset as int) && (forall|
                j: int,
            |
                self.touches(j, offset as int) ==> j == t as int),
            r matches TokenHit::Boundary(l, rt) ==> self.touches(l as int, offset as int)
                && self.touches(rt as int, offset as int) && self.nodes[l as int].end == offset
                && self.nodes[rt as int].start == offset && (forall|j: int|
                self.touches(j, offset as int) ==> j == l as int || j == rt as int),
    {
        let n = self.nodes.len();
        let mut first: Option<usize> = None;
        let mut second: Option<usize> = None;
        let mut i: usize = 0;
        while i < n
            invariant
                i <= n,
                n == self.nodes.len(),
                self.wf(),
                first is None ==> second is None,
                first is None ==> forall|j: int| 0 <= j < i ==> !self.touches(j, offset as int),
                first matches Some(a) ==> self.touches(a as int, offset as int) && a < i,
                second matches Some(b) ==> self.touches(b as int, offset as int) && b < i
                    && first is Some && b != first->Some_0,
                first is Some && second is None ==> forall|j: int|
                    0 <= j < i && self.touches(j, offset as int) ==> j == first->Some_0 as int,
                first is Some && second is Some ==> forall|j: int|
                    0 <= j < i && self.touches(j, offset as int) ==> j == first->Some_0 as int
                        || j == second->Some_0 as int,
            decreases n - i,
        {
            let nd = &self.nodes[i];
            if nd.children.len() == 0 && nd.start <= offset && offset <= nd.end {
                match (first, second) {
                    (None, _) => {
                        first = Some(i);
                    },
                    (Some(_), None) => {
                        second = Some(i);
                    },
                    (Some(a), Some(b)) => {
                        proof {
                            let off = offset as int;
                            let ai = a as int;
                            let bi = b as int;
                            let ci = i as int;
                            assert(self.wf_node(ai));
                            assert(self.wf_node(bi));
                            assert(self.wf_node(ci));
                            assert(self.touches(ai, off) && self.touches(bi, off)
                                && self.touches(ci, off));
                            assert(self.is_leaf(ai) && self.is_leaf(bi) && self.is_leaf(ci));
                            assert(self.spans_disjoint(ai, bi));
                            assert(self.spans_disjoint(ai, ci));
                            assert(self.spans_disjoint(bi, ci));
                            assert(false);
                        }
                    },
                }
            }
            i = i + 1;
        }
        match (first, second) {
            (None, _) => TokenHit::NoToken,
            (Some(a), None) => TokenHit::Single(a),
            (Some(a), Some(b)) => {
                proof {
                    let off = offset as int;
                    let ai = a as int;
                    let bi = b as int;
                    assert(self.wf_node(ai));
                    assert(self.wf_node(bi));
                    assert(self.is_leaf(ai) && self.is_leaf(bi));
                    assert(self.spans_disjoint(ai, bi));
                }
                if self.nodes[a].end == offset {
                    TokenHit::Boundary(a, b)
                } else {
                    TokenHit::Boundary(b, a)
                }
            },
        }
    }

    /// The first two syntactic (non-token) children of node `i`, when they
    /// exist: for a selection node these are its base expression and its
    /// index, for an entry its key and its value.
    pub fn first_two_segs(&self, i: usize) -> (r: (Option<usize>, Option<usize>))
        requires
            self.wf(),
            i < self.nodes.len(),
        ensures
            ({
                let ss = self.segs(i as int);
                &&& (ss.len() == 0 ==> r.0 is None && r.1 is None)
                &&& (ss.len() == 1 ==> r.0 == Some(ss[0]) && r.1 is None)
                &&& (ss.len() >= 2 ==> r.0 == Some(ss[0]) && r.1 == Some(ss[1]))
                &&& (r.0 matches Some(x) ==> i < x < self.nodes.len())
                &&& (r.1 matches Some(y) ==> i < y < self.nodes.len())
            }),
    {
        let n_children = self.nodes[i].children.len();
        proof {
            assert(self.nodes[i as int].children@.skip(0) =~= self.nodes[i as int].children@);
        }
        let mut a: Option<usize> = None;
        let mut b: Option<usize> = None;
        let mut j: usize = 0;
        while j < n_children
            invariant
                j <= n_children,
                n_children == self.nodes[i as int].children.len(),
                self.wf(),
                i < self.nodes.len(),
                a is None ==> b is None,
                a matches Some(x) ==> i < x < self.nodes.len(),
                b matches Some(y) ==> i < y < self.nodes.len(),
                a is None ==> self.segs(i as int) == segs_from(
                    self,
                    self.nodes[i as int].children@.skip(j as int),
                ),
                a is Some && b is None ==> self.segs(i as int) == seq![a->Some_0] + segs_from(
                    self,
                    self.nodes[i as int].children@.skip(j as int),
                ),
                a is Some && b is Some ==> self.segs(i as int).len() >= 2 && self.segs(i as int)[0]
                    == a->Some_0 && self.segs(i as int)[1] == b->Some_0,
            decreases n_children - j,
        {
            let c = self.nodes[i].children[j];
            proof {
                assert(self.wf_node(i as int));
                let csq = self.nodes[i as int].children@;
                assert(csq.skip(j as int)[0] == csq[j as int]);
                assert(csq.skip(j as int).drop_first() =~= csq.skip(j as int + 1));
            }
            if !(matches!(self.nodes[c].kind, NodeKind::Token)) {
                if a.is_none() {
                    a = Some(c);
                } else if b.is_none() {
                    b = Some(c);
                }
            }
            j = j + 1;
        }
        proof {
            assert(self.nodes[i as int].children@.skip(n_children as int)
                =~= Seq::<usize>::empty());
        }
        (a, b)
    }

    /// Decide whether this tree is well formed, so that a caller handed an
    /// arbitrary arena can test `wf` before asking anything of the tree.
    #[verifier::loop_isolation(false)]
    pub fn check_wf(&self) -> (r: bool)
        ensures
            r == self.wf(),
    {
        let n = self.nodes.len();
        let mut i: usize = 0;
        while i < n
            invariant
                i <= n,
                n == self.nodes.len(),
                forall|x: int| 0 <= x < i ==> self.wf_node(x),
            decreases n - i,
        {
            if !self.check_wf_node(i) {
                return false;
            }
            i = i + 1;
        }
        let mut a: usize = 0;
        while a < n
            invariant
                a <= n,
                n == self.nodes.len(),
                forall|x: int| 0 <= x < n ==> self.wf_node(x),
                forall|x: int, y: int|
                    0 <= x < a && 0 <= y < n && x != y && self.is_leaf(x) && self.is_leaf(y)
                        ==> #[trigger] self.spans_disjoint(x, y),
            decreases n - a,
        {
            let mut b: usize = 0;
            while b < n
                invariant
                    a < n,
                    b <= n,
                    n == self.nodes.len(),
                    forall|x: int| 0 <= x < n ==> self.wf_node(x),
                    forall|y: int|
                        0 <= y < b && (a as int) != y && self.is_leaf(a as int) && self.is_leaf(y)
                            ==> #[trigger] self.spans_disjoint(a as int, y)
                            && self.spans_disjoint(y, a as int),
                decreases n - b,
            {
                if a != b && self.nodes[a].children.len() == 0 && self.nodes[b].children.len()
                    == 0 {
                    let na = &self.nodes[a];
                    let nb = &self.nodes[b];
                    if !(na.end <= nb.start || nb.end <= na.start) {
                        proof {
                            if self.wf() {
                                assert(self.is_leaf(a as int) && self.is_leaf(b as int));
                                assert(self.spans_disjoint(a as int, b as int));
                            }
                        }
                        return false;
                    }
                }
                b = b + 1;
            }
            a = a + 1;
        }
        true
    }

    /// Decide whether node `i` alone is well formed.
    #[verifier::loop_isolation(false)]
    fn check_wf_node(&self, i: usize) -> (r: bool)
        requires
            i < self.nodes.len(),
        ensures
            r == self.wf_node(i as int),
    {
        let n = self.nodes.len();
        let nd = &self.nodes[i];
        match nd.parent {
            Some(p) => {
                if !(p < i) {
                    return false;
                }
                let pd = &self.nodes[p];
                if !(pd.start <= nd.start && nd.end <= pd.end) {
                    return false;
                }
                let mut found = false;
                let mut m: usize = 0;
                while m < pd.children.len()
                    invariant
                        m <= pd.children.len(),
                        pd == &self.nodes[p as int],
                        found ==> pd.children@.contains(i),
                        !found ==> forall|x: int| 0 <= x < m ==> pd.children@[x] != i,
                    decreases pd.children.len() - m,
                {
                    if pd.children[m] == i {
                        found = true;
                    }
                    m = m + 1;
                }
                if !found {
                    proof {
                        if self.nodes[p as int].children@.contains(i) {
                            let x = choose|x: int|
                                0 <= x < self.nodes[p as int].children@.len() && self.nodes[
                                    p as int
                                ].children@[x] == i;
                            assert(false);
                        }
                    }
                    return false;
                }
            },
            None => {},
        }
        if !(nd.start <= nd.end) {
            return false;
        }
        if nd.children.len() == 0 && !(nd.start < nd.end) {
            return false;
        }
        let mut m: usize = 0;
        while m < nd.children.len()
            invariant
                m <= nd.children.len(),
                i < self.nodes.len(),
                nd == &self.nodes[i as int],
                forall|x: int|
                    0 <= x < m ==> ({
                        let c = (#[trigger] nd.children@[x]) as int;
                        &&& (i as int) < c
                        &&& c < self.len()
                        &&& self.nodes[c].parent == Some(i)
                    }),
            decreases nd.children.len() - m,
        {
            let c = nd.children[m];
            if !(i < c && c < n) {
                return false;
            }
            let cp = self.nodes[c].parent;
            let ok = match cp {
                Some(q) => q == i,
                None => false,
            };
            if !ok {
                return false;
            }
            m = m + 1;
        }
        true
    }

    /// The first child of node `i` of kind `k`, when it exists.
    pub fn first_kid_of_kind(&self, i: usize, k: NodeKind) -> (r: Option<usize>)
        requires
            self.wf(),
            i < self.nodes.len(),
        ensures
            ({
                let ks = self.kids_of_kind(i as int, k);
                &&& (ks.len() == 0 ==> r is None)
                &&& (ks.len() >= 1 ==> r == Some(ks[0]))
                &&& (r matches Some(x) ==> i < x < self.nodes.len() && self.nodes[x as int].kind
                    == k)
            }),
    {
        let n_children = self.nodes[i].children.len();
        proof {
            assert(self.nodes[i as int].children@.skip(0) =~= self.nodes[i as int].children@);
        }
        let mut a: Option<usize> = None;
        let mut j: usize = 0;
        while j < n_children
            invariant
                j <= n_children,
                n_children == self.nodes[i as int].children.len(),
                self.wf(),
                i < self.nodes.len(),
                a matches Some(x) ==> i < x < self.nodes.len() && self.nodes[x as int].kind == k,
                a is None ==> self.kids_of_kind(i as int, k) == kids_of_kind_from(
                    self,
                    self.nodes[i as int].children@.skip(j as int),
                    k,
                ),
                a is Some ==> self.kids_of_kind(i as int, k).len() >= 1 && self.kids_of_kind(
                    i as int,
                    k,
                )[0] == a->Some_0,
            decreases n_children - j,
        {
            let c = self.nodes[i].children[j];
            proof {
                assert(self.wf_node(i as int));
                let csq = self.nodes[i as int].children@;
                assert(csq.skip(j as int)[0] == csq[j as int]);
                assert(csq.skip(j as int).drop_first() =~= csq.skip(j as int + 1));
            }
            if a.is_none() && self.nodes[c].kind == k {
                a = Some(c);
            }
            j = j + 1;
        }
        proof {
            assert(self.nodes[i as int].children@.skip(n_children as int)
                =~= Seq::<usize>::empty());
        }
        a
    }
}

} // verus!
