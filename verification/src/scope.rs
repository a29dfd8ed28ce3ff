//! The lexical scope visible at a tree node: walking the node's ancestor
//! chain from the inside out, collecting the names bound by `let` blocks,
//! recursive attribute sets and function parameters, with first-write-wins
//! shadowing so that the nearest enclosing binding of a name is retained.

use vstd::prelude::*;
use crate::tree::{kids_of_kind_from, NodeKind, SyntaxTree};

verus! {

/// An opaque identity for the file a binding originates from.  Handing
/// bindings an index into a caller-kept table makes duplication free and
/// sharing safe.
#[derive(Clone, Copy, PartialEq, Eq, Structural, Debug)]
pub struct FileId(pub usize);

/// One binding visible in a scope: the file it comes from, the node that
/// introduces the scope (a let block, a recursive set or a lambda), the
/// node of the binding's name, and the bound value node.  The value is
/// present exactly when the binding comes from an attribute entry; a
/// function-parameter binding has none.
#[derive(Clone, Copy, PartialEq, Eq, Structural, Debug)]
pub struct Var {
    pub file: FileId,
    pub set: usize,
    pub key: usize,
    pub value: Option<usize>,
}

/// One name with its binding.
pub struct ScopeEntry {
    pub name: String,
    pub var: Var,
}

/// A mapping from visible names to their bindings, unique per name.
pub struct Scope {
    entries: Vec<ScopeEntry>,
}

/// The mathematical content of a list of scope entries, later entries
/// inserted over earlier ones.
pub open spec fn scope_view_from(es: Seq<ScopeEntry>) -> Map<Seq<char>, Var>
    decreases es.len(),
{
    if es.len() == 0 {
        Map::empty()
    } else {
        scope_view_from(es.drop_last()).insert(es.last().name@, es.last().var)
    }
}

/// A name occurs in the view exactly when some entry carries it.
proof fn lemma_scope_view_contains(es: Seq<ScopeEntry>, nm: Seq<char>)
    ensures
        scope_view_from(es).dom().contains(nm) <==> exists|j: int|
            0 <= j < es.len() && es[j].name@ == nm,
    decreases es.len(),
{
    if es.len() > 0 {
        lemma_scope_view_contains(es.drop_last(), nm);
        if es.last().name@ == nm {
            assert(es[es.len() - 1].name@ == nm);
        } else {
            if exists|j: int| 0 <= j < es.drop_last().len() && es.drop_last()[j].name@ == nm {
                let j = choose|j: int|
                    0 <= j < es.drop_last().len() && es.drop_last()[j].name@ == nm;
                assert(es[j].name@ == nm);
            }
            if exists|j: int| 0 <= j < es.len() && es[j].name@ == nm {
                let j = choose|j: int| 0 <= j < es.len() && es[j].name@ == nm;
                assert(es.drop_last()[j].name@ == nm);
            }
        }
    }
}

/// With unique names, the view maps each carried name to its entry's
/// binding.
proof fn lemma_scope_view_get(es: Seq<ScopeEntry>, nm: Seq<char>, j: int)
    requires
        forall|x: int, y: int|
            0 <= x < es.len() && 0 <= y < es.len() && x != y ==> es[x].name@ != es[y].name@,
        0 <= j < es.len(),
        es[j].name@ == nm,
    ensures
        scope_view_from(es).dom().contains(nm),
        scope_view_from(es)[nm] == es[j].var,
    decreases es.len(),
{
    if j == es.len() - 1 {
        assert(es.last() == es[j]);
    } else {
        assert(es[es.len() - 1].name@ != nm);
        lemma_scope_view_get(es.drop_last(), nm, j);
        assert(es.drop_last()[j] == es[j]);
    }
}

/// Compare two strings by their characters.
fn str_eq(a: &str, b: &str) -> (r: bool)
    ensures
        r == (a@ == b@),
{
    let la = a.unicode_len();
    let lb = b.unicode_len();
    if la != lb {
        proof {
            if a@ == b@ {
                assert(a@.len() == b@.len());
            }
        }
        return false;
    }
    let mut i: usize = 0;
    while i < la
        invariant
            i <= la,
            la == a@.len(),
            lb == b@.len(),
            la == lb,
            forall|j: int| 0 <= j < i ==> a@[j] == b@[j],
        decreases la - i,
    {
        if a.get_char(i) != b.get_char(i) {
            proof {
                if a@ == b@ {
                    assert(a@[i as int] == b@[i as int]);
                }
            }
            return false;
        }
        i = i + 1;
    }
    proof {
        assert(a@ =~= b@);
    }
    true
}

impl Scope {
    /// The mapping this scope stands for.
    pub closed spec fn view(&self) -> Map<Seq<char>, Var> {
        scope_view_from(self.entries@)
    }

    /// Names are unique across the entries.
    pub closed spec fn wf(&self) -> bool {
        forall|x: int, y: int|
            0 <= x < self.entries.len() && 0 <= y < self.entries.len() && x != y
                ==> self.entries[x].name@ != self.entries[y].name@
    }

    /// The empty scope.
    pub fn new() -> (r: Scope)
        ensures
            r@ == Map::<Seq<char>, Var>::empty(),
            r.wf(),
    {
        Scope { entries: Vec::new() }
    }

    /// Whether `name` is already bound in this scope.
    pub fn contains_name(&self, name: &str) -> (r: bool)
        ensures
            r == self@.dom().contains(name@),
    {
        let n = self.entries.len();
        let mut i: usize = 0;
        while i < n
            invariant
                i <= n,
                n == self.entries.len(),
                forall|j: int| 0 <= j < i ==> self.entries[j].name@ != name@,
            decreases n - i,
        {
            if str_eq(self.entries[i].name.as_str(), name) {
                proof {
                    lemma_scope_view_contains(self.entries@, name@);
                }
                return true;
            }
            i = i + 1;
        }
        proof {
            lemma_scope_view_contains(self.entries@, name@);
        }
        false
    }

    /// The binding of `name`, when one is visible.
    pub fn get(&self, name: &str) -> (r: Option<Var>)
        requires
            self.wf(),
        ensures
            match r {
                Some(v) => self@.dom().contains(name@) && v == self@[name@],
                None => !self@.dom().contains(name@),
            },
    {
        let n = self.entries.len();
        let mut i: usize = 0;
        while i < n
            invariant
                i <= n,
                n == self.entries.len(),
                self.wf(),
                forall|j: int| 0 <= j < i ==> self.entries[j].name@ != name@,
            decreases n - i,
        {
            if str_eq(self.entries[i].name.as_str(), name) {
                proof {
                    lemma_scope_view_get(self.entries@, name@, i as int);
                }
                return Some(self.entries[i].var);
            }
            i = i + 1;
        }
        proof {
            lemma_scope_view_contains(self.entries@, name@);
        }
        None
    }

    /// Number of names bound in this scope.
    pub fn len(&self) -> (r: usize)
        requires
            self.wf(),
        ensures
            r == self@.dom().len(),
    {
        proof {
            lemma_scope_view_len(self.entries@);
        }
        self.entries.len()
    }

    /// Bind `name`, which must not be bound yet.
    fn insert(&mut self, name: String, var: Var)
        requires
            old(self).wf(),
            !old(self)@.dom().contains(name@),
        ensures
            final(self).wf(),
            final(self)@ == old(self)@.insert(name@, var),
    {
        proof {
            lemma_scope_view_contains(self.entries@, name@);
        }
        let ghost old_es = self.entries@;
        self.entries.push(ScopeEntry { name, var });
        proof {
            assert(self.entries@.drop_last() =~= old_es);
        }
    }
}

/// With unique names, the scope holds as many names as entries.
proof fn lemma_scope_view_len(es: Seq<ScopeEntry>)
    requires
        forall|x: int, y: int|
            0 <= x < es.len() && 0 <= y < es.len() && x != y ==> es[x].name@ != es[y].name@,
    ensures
        scope_view_from(es).dom().len() == es.len(),
        scope_view_from(es).dom().finite(),
    decreases es.len(),
{
    if es.len() > 0 {
        lemma_scope_view_len(es.drop_last());
        lemma_scope_view_contains(es.drop_last(), es.last().name@);
        if exists|j: int|
            0 <= j < es.drop_last().len() && es.drop_last()[j].name@ == es.last().name@ {
            let j = choose|j: int|
                0 <= j < es.drop_last().len() && es.drop_last()[j].name@ == es.last().name@;
            assert(es[j].name@ == es[es.len() - 1].name@);
        }
    }
}

/// The binding an attribute entry contributes: its key's first path
/// segment must be a plain identifier and the entry must carry a value;
/// a malformed entry contributes nothing.
pub open spec fn entry_var(t: &SyntaxTree, file: FileId, set: usize, e: usize) -> Option<
    (Seq<char>, Var),
> {
    let es = t.segs(e as int);
    if es.len() >= 2 && t.nodes[es[0] as int].kind == NodeKind::Key {
        let ks = t.segs(es[0] as int);
        if ks.len() >= 1 && t.nodes[ks[0] as int].kind == NodeKind::Ident {
            Some(
                (
                    t.nodes[ks[0] as int].text@,
                    Var { file, set, key: ks[0], value: Some(es[1]) },
                ),
            )
        } else {
            None
        }
    } else {
        None
    }
}

/// The bindings a list of attribute entries contributes, the first entry
/// carrying a name winning over later ones.
pub open spec fn entries_contrib(
    t: &SyntaxTree,
    file: FileId,
    set: usize,
    es: Seq<usize>,
) -> Map<Seq<char>, Var>
    decreases es.len(),
{
    if es.len() == 0 {
        Map::empty()
    } else {
        let rest = entries_contrib(t, file, set, es.drop_first());
        match entry_var(t, file, set, es[0]) {
            Some(nv) => rest.union_prefer_right(Map::empty().insert(nv.0, nv.1)),
            None => rest,
        }
    }
}

/// The binding a destructuring-pattern field contributes: its name, bound
/// without a value.
pub open spec fn pat_entry_var(t: &SyntaxTree, file: FileId, lambda: usize, pe: usize) -> Option<
    (Seq<char>, Var),
> {
    let ns = t.kids_of_kind(pe as int, NodeKind::Ident);
    if ns.len() >= 1 {
        Some((t.nodes[ns[0] as int].text@, Var { file, set: lambda, key: ns[0], value: None }))
    } else {
        None
    }
}

/// The bindings of a pattern's fields, first field winning.
pub open spec fn pat_contrib(
    t: &SyntaxTree,
    file: FileId,
    lambda: usize,
    pes: Seq<usize>,
) -> Map<Seq<char>, Var>
    decreases pes.len(),
{
    if pes.len() == 0 {
        Map::empty()
    } else {
        let rest = pat_contrib(t, file, lambda, pes.drop_first());
        match pat_entry_var(t, file, lambda, pes[0]) {
            Some(nv) => rest.union_prefer_right(Map::empty().insert(nv.0, nv.1)),
            None => rest,
        }
    }
}

/// The bindings a lambda contributes: its plain-identifier parameter, or
/// every field of its destructuring pattern, all without values.
pub open spec fn lambda_contrib(t: &SyntaxTree, file: FileId, n: usize) -> Map<Seq<char>, Var> {
    let ss = t.segs(n as int);
    if ss.len() >= 1 {
        let arg = ss[0];
        if t.nodes[arg as int].kind == NodeKind::Ident {
            Map::empty().insert(
                t.nodes[arg as int].text@,
                Var { file, set: n, key: arg, value: None },
            )
        } else if t.nodes[arg as int].kind == NodeKind::Pattern {
            pat_contrib(t, file, n, t.kids_of_kind(arg as int, NodeKind::PatEntry))
        } else {
            Map::empty()
        }
    } else {
        Map::empty()
    }
}

/// What one node adds to the scopes below it: let blocks and recursive
/// attribute sets contribute their entries, lambdas their parameters,
/// everything else (non-recursive sets included) nothing.
pub open spec fn node_contrib(t: &SyntaxTree, file: FileId, n: usize) -> Map<Seq<char>, Var> {
    match t.nodes[n as int].kind {
        NodeKind::LetIn => entries_contrib(t, file, n, t.kids_of_kind(n as int, NodeKind::Entry)),
        NodeKind::LegacyLet => entries_contrib(
            t,
            file,
            n,
            t.kids_of_kind(n as int, NodeKind::Entry),
        ),
        NodeKind::AttrSetRec => entries_contrib(
            t,
            file,
            n,
            t.kids_of_kind(n as int, NodeKind::Entry),
        ),
        NodeKind::Lambda => lambda_contrib(t, file, n),
        _ => Map::empty(),
    }
}

/// The scope visible at node `n`: the scope of its ancestors, overridden
/// by what `n` itself contributes — the walk goes from the inside out and
/// the nearest enclosing binding of a name wins.
pub open spec fn scope_spec(t: &SyntaxTree, file: FileId, n: usize) -> Map<Seq<char>, Var>
    decreases n,
{
    let up = match t.nodes[n as int].parent {
        Some(p) => if p < n {
            scope_spec(t, file, p)
        } else {
            Map::empty()
        },
        None => Map::empty(),
    };
    up.union_prefer_right(node_contrib(t, file, n))
}

/// Shadowing: a name bound by node `n` itself resolves to `n`'s own
/// binding in the scope visible at `n` — the walk starts at the innermost
/// construct, and the nearest enclosing binding of a name always wins over
/// any binding of the same name further out.
pub proof fn lemma_nearest_binding_wins(t: &SyntaxTree, file: FileId, n: usize, nm: Seq<char>)
    requires
        node_contrib(t, file, n).dom().contains(nm),
    ensures
        scope_spec(t, file, n).dom().contains(nm),
        scope_spec(t, file, n)[nm] == node_contrib(t, file, n)[nm],
{
}

/// Every binding a pattern contributes lacks a value.
proof fn lemma_pat_contrib_no_value(
    t: &SyntaxTree,
    file: FileId,
    lambda: usize,
    pes: Seq<usize>,
    nm: Seq<char>,
)
    requires
        pat_contrib(t, file, lambda, pes).dom().contains(nm),
    ensures
        pat_contrib(t, file, lambda, pes)[nm].value is None,
        pat_contrib(t, file, lambda, pes)[nm].set == lambda,
    decreases pes.len(),
{
    if pes.len() > 0 {
        match pat_entry_var(t, file, lambda, pes[0]) {
            Some(nv) => {
                if nv.0 != nm {
                    lemma_pat_contrib_no_value(t, file, lambda, pes.drop_first(), nm);
                }
            },
            None => {
                lemma_pat_contrib_no_value(t, file, lambda, pes.drop_first(), nm);
            },
        }
    }
}

/// Function-parameter bindings have no value: whatever name a lambda's
/// parameter (plain or destructured) makes visible is bound with an absent
/// value node, and the lambda itself as the scope node.
pub proof fn lemma_lambda_bindings_have_no_value(
    t: &SyntaxTree,
    file: FileId,
    n: usize,
    nm: Seq<char>,
)
    requires
        t.nodes[n as int].kind == NodeKind::Lambda,
        node_contrib(t, file, n).dom().contains(nm),
    ensures
        node_contrib(t, file, n)[nm].value is None,
        node_contrib(t, file, n)[nm].set == n,
{
    let ss = t.segs(n as int);
    if ss.len() >= 1 && t.nodes[ss[0] as int].kind == NodeKind::Pattern {
        lemma_pat_contrib_no_value(
            t,
            file,
            n,
            t.kids_of_kind(ss[0] as int, NodeKind::PatEntry),
            nm,
        );
    }
}

/// Only sets marked recursive bind names for the scope walk: a
/// non-recursive attribute set contributes nothing to the scope of the
/// nodes below it, while a recursive one contributes its entries.
pub proof fn lemma_recursive_sets_bind(t: &SyntaxTree, file: FileId, n: usize)
    ensures
        t.nodes[n as int].kind == NodeKind::AttrSet ==> node_contrib(t, file, n) == Map::<
            Seq<char>,
            Var,
        >::empty(),
        t.nodes[n as int].kind == NodeKind::AttrSetRec ==> node_contrib(t, file, n)
            == entries_contrib(t, file, n, t.kids_of_kind(n as int, NodeKind::Entry)),
{
}

/// Every binding an attribute-entry set contributes carries a value: the
/// counterpart of `lemma_lambda_bindings_have_no_value` for let blocks and
/// recursive sets.
pub proof fn lemma_entry_bindings_have_value(
    t: &SyntaxTree,
    file: FileId,
    set: usize,
    es: Seq<usize>,
    nm: Seq<char>,
)
    requires
        entries_contrib(t, file, set, es).dom().contains(nm),
    ensures
        entries_contrib(t, file, set, es)[nm].value is Some,
        entries_contrib(t, file, set, es)[nm].set == set,
    decreases es.len(),
{
    if es.len() > 0 {
        match entry_var(t, file, set, es[0]) {
            Some(nv) => {
                if nv.0 != nm {
                    lemma_entry_bindings_have_value(t, file, set, es.drop_first(), nm);
                }
            },
            None => {
                lemma_entry_bindings_have_value(t, file, set, es.drop_first(), nm);
            },
        }
    }
}

/// Right-biased map union is associative.
proof fn lemma_upr_assoc<K, V>(a: Map<K, V>, b: Map<K, V>, c: Map<K, V>)
    ensures
        a.union_prefer_right(b).union_prefer_right(c) == a.union_prefer_right(
            b.union_prefer_right(c),
        ),
{
    assert(a.union_prefer_right(b).union_prefer_right(c) =~= a.union_prefer_right(
        b.union_prefer_right(c),
    ));
}

/// The empty map is a unit for right-biased union.
proof fn lemma_upr_empty<K, V>(m: Map<K, V>)
    ensures
        Map::<K, V>::empty().union_prefer_right(m) == m,
        m.union_prefer_right(Map::<K, V>::empty()) == m,
{
    assert(Map::<K, V>::empty().union_prefer_right(m) =~= m);
    assert(m.union_prefer_right(Map::<K, V>::empty()) =~= m);
}

/// Bind `name` unless something closer already bound it.
fn insert_if_absent(scope: &mut Scope, name: String, var: Var)
    requires
        old(scope).wf(),
    ensures
        final(scope).wf(),
        final(scope)@ == Map::empty().insert(name@, var).union_prefer_right(old(scope)@),
{
    let present = scope.contains_name(name.as_str());
    if !present {
        let ghost nm = name@;
        scope.insert(name, var);
        proof {
            assert(Map::empty().insert(nm, var).union_prefer_right(old(scope)@) =~= scope@);
        }
    } else {
        proof {
            assert(Map::empty().insert(name@, var).union_prefer_right(scope@) =~= scope@);
        }
    }
}

/// The binding an attribute entry introduces, when it is well formed.
fn entry_binding(tree: &SyntaxTree, file: FileId, set: usize, e: usize) -> (r: Option<
    (String, Var),
>)
    requires
        tree.wf(),
        e < tree.nodes.len(),
        set < tree.nodes.len(),
    ensures
        match r {
            Some(nv) => entry_var(tree, file, set, e) == Some((nv.0@, nv.1)),
            None => entry_var(tree, file, set, e) is None,
        },
{
    let (k_opt, v_opt) = tree.first_two_segs(e);
    let kk = match k_opt {
        Some(kk) => kk,
        None => {
            return None;
        },
    };
    if !(matches!(tree.nodes[kk].kind, NodeKind::Key)) {
        return None;
    }
    let v = match v_opt {
        Some(v) => v,
        None => {
            return None;
        },
    };
    let (i0_opt, _) = tree.first_two_segs(kk);
    let i0 = match i0_opt {
        Some(i0) => i0,
        None => {
            return None;
        },
    };
    if !(matches!(tree.nodes[i0].kind, NodeKind::Ident)) {
        return None;
    }
    Some((tree.nodes[i0].text.clone(), Var { file, set, key: i0, value: Some(v) }))
}

/// The binding a pattern field introduces, when it names one.
fn pat_entry_binding(tree: &SyntaxTree, file: FileId, lambda: usize, pe: usize) -> (r: Option<
    (String, Var),
>)
    requires
        tree.wf(),
        pe < tree.nodes.len(),
        lambda < tree.nodes.len(),
    ensures
        match r {
            Some(nv) => pat_entry_var(tree, file, lambda, pe) == Some((nv.0@, nv.1)),
            None => pat_entry_var(tree, file, lambda, pe) is None,
        },
{
    match tree.first_kid_of_kind(pe, NodeKind::Ident) {
        Some(n0) => Some(
            (tree.nodes[n0].text.clone(), Var { file, set: lambda, key: n0, value: None }),
        ),
        None => None,
    }
}

/// Add to `scope` every binding of the entry set `set` whose name is not
/// already bound: the population step shared by let blocks and recursive
/// attribute sets.  A malformed entry contributes nothing; the rest of the
/// set is still walked.
#[verifier::loop_isolation(false)]
pub fn populate(file: FileId, scope: &mut Scope, tree: &SyntaxTree, set: usize) -> (r: Option<()>)
    requires
        tree.wf(),
        set < tree.nodes.len(),
        old(scope).wf(),
    ensures
        final(scope).wf(),
        final(scope)@ == entries_contrib(
            tree,
            file,
            set,
            tree.kids_of_kind(set as int, NodeKind::Entry),
        ).union_prefer_right(old(scope)@),
        r is Some,
{
    let ghost target = entries_contrib(
        tree,
        file,
        set,
        tree.kids_of_kind(set as int, NodeKind::Entry),
    ).union_prefer_right(scope@);
    let n_children = tree.nodes[set].children.len();
    proof {
        assert(tree.nodes[set as int].children@.skip(0) =~= tree.nodes[set as int].children@);
    }
    let mut j: usize = 0;
    while j < n_children
        invariant
            j <= n_children,
            scope.wf(),
            entries_contrib(
                tree,
                file,
                set,
                kids_of_kind_from(
                    tree,
                    tree.nodes[set as int].children@.skip(j as int),
                    NodeKind::Entry,
                ),
            ).union_prefer_right(scope@) == target,
        decreases n_children - j,
    {
        let c = tree.nodes[set].children[j];
        let ghost s_pre = scope@;
        let ghost suffix_j = kids_of_kind_from(
            tree,
            tree.nodes[set as int].children@.skip(j as int),
            NodeKind::Entry,
        );
        let ghost suffix_j1 = kids_of_kind_from(
            tree,
            tree.nodes[set as int].children@.skip(j as int + 1),
            NodeKind::Entry,
        );
        proof {
            assert(tree.wf_node(set as int));
            let csq = tree.nodes[set as int].children@;
            assert(csq.skip(j as int)[0] == csq[j as int]);
            assert(csq.skip(j as int).drop_first() =~= csq.skip(j as int + 1));
            if tree.nodes[c as int].kind == NodeKind::Entry {
                assert(suffix_j =~= seq![c] + suffix_j1);
                assert((seq![c] + suffix_j1)[0] == c);
                assert((seq![c] + suffix_j1).drop_first() =~= suffix_j1);
            } else {
                assert(suffix_j =~= suffix_j1);
            }
        }
        if matches!(tree.nodes[c].kind, NodeKind::Entry) {
            match entry_binding(tree, file, set, c) {
                Some((nm, var)) => {
                    let ghost nm_v = nm@;
                    insert_if_absent(scope, nm, var);
                    proof {
                        lemma_upr_assoc(
                            entries_contrib(tree, file, set, suffix_j1),
                            Map::empty().insert(nm_v, var),
                            s_pre,
                        );
                    }
                },
                None => {},
            }
        }
        j = j + 1;
    }
    proof {
        assert(tree.nodes[set as int].children@.skip(n_children as int)
            =~= Seq::<usize>::empty());
        lemma_upr_empty(scope@);
    }
    Some(())
}

/// Add the bindings of every named field of pattern `pat` to `scope`,
/// skipping names already bound.
#[verifier::loop_isolation(false)]
fn populate_pattern(file: FileId, scope: &mut Scope, tree: &SyntaxTree, lambda: usize, pat: usize)
    requires
        tree.wf(),
        lambda < tree.nodes.len(),
        pat < tree.nodes.len(),
        old(scope).wf(),
    ensures
        final(scope).wf(),
        final(scope)@ == pat_contrib(
            tree,
            file,
            lambda,
            tree.kids_of_kind(pat as int, NodeKind::PatEntry),
        ).union_prefer_right(old(scope)@),
{
    let ghost target = pat_contrib(
        tree,
        file,
        lambda,
        tree.kids_of_kind(pat as int, NodeKind::PatEntry),
    ).union_prefer_right(scope@);
    let n_children = tree.nodes[pat].children.len();
    proof {
        assert(tree.nodes[pat as int].children@.skip(0) =~= tree.nodes[pat as int].children@);
    }
    let mut j: usize = 0;
    while j < n_children
        invariant
            j <= n_children,
            scope.wf(),
            pat_contrib(
                tree,
                file,
                lambda,
                kids_of_kind_from(
                    tree,
                    tree.nodes[pat as int].children@.skip(j as int),
                    NodeKind::PatEntry,
                ),
            ).union_prefer_right(scope@) == target,
        decreases n_children - j,
    {
        let c = tree.nodes[pat].children[j];
        let ghost s_pre = scope@;
        let ghost suffix_j1 = kids_of_kind_from(
            tree,
            tree.nodes[pat as int].children@.skip(j as int + 1),
            NodeKind::PatEntry,
        );
        proof {
            assert(tree.wf_node(pat as int));
            let csq = tree.nodes[pat as int].children@;
            assert(csq.skip(j as int)[0] == csq[j as int]);
            assert(csq.skip(j as int).drop_first() =~= csq.skip(j as int + 1));
            let suffix_j = kids_of_kind_from(
                tree,
                csq.skip(j as int),
                NodeKind::PatEntry,
            );
            if tree.nodes[c as int].kind == NodeKind::PatEntry {
                assert(suffix_j =~= seq![c] + suffix_j1);
                assert((seq![c] + suffix_j1)[0] == c);
                assert((seq![c] + suffix_j1).drop_first() =~= suffix_j1);
            } else {
                assert(suffix_j =~= suffix_j1);
            }
        }
        if matches!(tree.nodes[c].kind, NodeKind::PatEntry) {
            match pat_entry_binding(tree, file, lambda, c) {
                Some((nm, var)) => {
                    let ghost nm_v = nm@;
                    insert_if_absent(scope, nm, var);
                    proof {
                        lemma_upr_assoc(
                            pat_contrib(tree, file, lambda, suffix_j1),
                            Map::empty().insert(nm_v, var),
                            s_pre,
                        );
                    }
                },
                None => {},
            }
        }
        j = j + 1;
    }
    proof {
        assert(tree.nodes[pat as int].children@.skip(n_children as int)
            =~= Seq::<usize>::empty());
        lemma_upr_empty(scope@);
    }
}

/// The scope visible at `node`: walk `node` and its ancestors up to the
/// root, collecting the bindings of let blocks, recursive attribute sets
/// and lambda parameters; a name already seen closer to `node` is never
/// overwritten.  The walk never fails; malformed constructs contribute
/// nothing.
#[verifier::loop_isolation(false)]
pub fn scope_for(file: FileId, tree: &SyntaxTree, node: usize) -> (r: Option<Scope>)
    requires
        tree.wf(),
        node < tree.nodes.len(),
    ensures
        r matches Some(s) && s.wf() && s@ == scope_spec(tree, file, node),
{
    let mut scope = Scope::new();
    let mut cur_opt: Option<usize> = Some(node);
    while cur_opt.is_some()
        invariant
            cur_opt matches Some(c) ==> c < tree.nodes.len(),
            scope.wf(),
            match cur_opt {
                Some(c) => scope_spec(tree, file, c).union_prefer_right(scope@) == scope_spec(
                    tree,
                    file,
                    node,
                ),
                None => scope@ == scope_spec(tree, file, node),
            },
        decreases (match cur_opt {
            Some(c) => c as int + 1,
            None => 0int,
        }),
    {
        let c = cur_opt.unwrap();
        let ghost s_pre = scope@;
        proof {
            assert(tree.wf_node(c as int));
        }
        match tree.nodes[c].kind {
            NodeKind::LetIn | NodeKind::LegacyLet | NodeKind::AttrSetRec => {
                let _populated = populate(file, &mut scope, tree, c);
                proof {
                    assert(node_contrib(tree, file, c) == entries_contrib(
                        tree,
                        file,
                        c,
                        tree.kids_of_kind(c as int, NodeKind::Entry),
                    ));
                }
            },
            NodeKind::Lambda => {
                let (arg_opt, _) = tree.first_two_segs(c);
                match arg_opt {
                    None => {
                        proof {
                            if tree.segs(c as int).len() >= 1 {
                                assert(false);
                            }
                            lemma_upr_empty(scope@);
                        }
                    },
                    Some(arg) => {
                        proof {
                            if tree.segs(c as int).len() == 0 {
                                assert(false);
                            }
                            assert(arg == tree.segs(c as int)[0]);
                        }
                        if matches!(tree.nodes[arg].kind, NodeKind::Ident) {
                            let nm = tree.nodes[arg].text.clone();
                            let ghost nm_v = nm@;
                            insert_if_absent(
                                &mut scope,
                                nm,
                                Var { file, set: c, key: arg, value: None },
                            );
                            proof {
                                assert(lambda_contrib(tree, file, c) == Map::empty().insert(
                                    nm_v,
                                    Var { file, set: c, key: arg, value: None },
                                ));
                            }
                        } else if matches!(tree.nodes[arg].kind, NodeKind::Pattern) {
                            populate_pattern(file, &mut scope, tree, c, arg);
                            proof {
                                assert(lambda_contrib(tree, file, c) == pat_contrib(
                                    tree,
                                    file,
                                    c,
                                    tree.kids_of_kind(arg as int, NodeKind::PatEntry),
                                ));
                            }
                        } else {
                            proof {
                                assert(lambda_contrib(tree, file, c) =~= Map::<
                                    Seq<char>,
                                    Var,
                                >::empty());
                                lemma_upr_empty(scope@);
                            }
                        }
                    },
                }
            },
            _ => {
                proof {
                    assert(node_contrib(tree, file, c) =~= Map::<Seq<char>, Var>::empty());
                    lemma_upr_empty(scope@);
                }
            },
        }
        proof {
            assert(scope@ == node_contrib(tree, file, c).union_prefer_right(s_pre));
            match tree.nodes[c as int].parent {
                Some(p) => {
                    lemma_upr_assoc(
                        scope_spec(tree, file, p),
                        node_contrib(tree, file, c),
                        s_pre,
                    );
                },
                None => {
                    lemma_upr_empty(node_contrib(tree, file, c).union_prefer_right(s_pre));
                },
            }
        }
        cur_opt = tree.nodes[c].parent;
    }
    Some(scope)
}

} // verus!
