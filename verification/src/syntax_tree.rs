//! Syntax trees as flat lists of nodes in source order.
use vstd::prelude::*;

verus! {

/// One node of a parsed file. The nodes of a tree stand in preorder, so
/// `depth` alone fixes the shape of the tree.
#[derive(Debug, Clone)]
pub struct SyntaxNode {
    /// The grammar's name for this sort of node.
    pub kind: String,
    /// The field of the parent that this node fills, if it fills one.
    pub field: Option<String>,
    /// Offset of the first byte.
    pub start_byte: usize,
    /// Offset behind the last byte.
    pub end_byte: usize,
    /// 0-based row of the first byte.
    pub start_row: usize,
    /// 0-based row behind the last byte.
    pub end_row: usize,
    /// Distance from the root.
    pub depth: usize,
}

/// What a [`SyntaxNode`] stands for.
pub struct NodeModel {
    pub kind: Seq<char>,
    pub field: Option<Seq<char>>,
    pub start_byte: int,
    pub end_byte: int,
    pub start_row: int,
    pub end_row: int,
    pub depth: int,
}

impl View for SyntaxNode {
    type V = NodeModel;

    open spec fn view(&self) -> NodeModel {
        NodeModel {
            kind: self.kind@,
            field: match self.field {
                Some(f) => Some(f@),
                None => None,
            },
            start_byte: self.start_byte as int,
            end_byte: self.end_byte as int,
            start_row: self.start_row as int,
            end_row: self.end_row as int,
            depth: self.depth as int,
        }
    }
}

/// The node models of a list of nodes.
pub open spec fn node_models(nodes: Seq<SyntaxNode>) -> Seq<NodeModel> {
    Seq::new(nodes.len(), |i: int| nodes[i]@)
}

/// `p` is the parent of `i`: the nearest node before `i` that is less deep.
pub open spec fn is_parent(s: Seq<NodeModel>, p: int, i: int) -> bool {
    &&& 0 <= p < i < s.len()
    &&& s[p].depth < s[i].depth
    &&& forall|k: int| p < k < i ==> (#[trigger] s[k]).depth >= s[i].depth
}

/// The parent of node `i`; a node that no earlier node is less deep than has
/// none.
pub open spec fn parent_of(s: Seq<NodeModel>, i: int) -> Option<int> {
    if exists|p: int| is_parent(s, p, i) {
        Some(choose|p: int| is_parent(s, p, i))
    } else {
        None
    }
}

/// A node has at most one parent, and it stands before the node.
pub proof fn lemma_parent_unique(s: Seq<NodeModel>, p: int, i: int)
    requires
        is_parent(s, p, i),
    ensures
        parent_of(s, i) == Some(p),
{
    let q = choose|q: int| is_parent(s, q, i);
    assert(is_parent(s, q, i));
    if q < p {
        assert(s[p].depth >= s[i].depth);
    } else if p < q {
        assert(s[q].depth >= s[i].depth);
    }
}

/// A parent stands before its child.
pub proof fn lemma_parent_before(s: Seq<NodeModel>, i: int)
    ensures
        parent_of(s, i) matches Some(p) ==> is_parent(s, p, i),
{
}

/// Node `i` has no children: the next node is not deeper.
pub open spec fn is_leaf(s: Seq<NodeModel>, i: int) -> bool {
    i + 1 >= s.len() || s[i + 1].depth <= s[i].depth
}

/// `e` is the index behind the last descendant of `i`.
pub open spec fn is_subtree_end(s: Seq<NodeModel>, i: int, e: int) -> bool {
    &&& 0 <= i < e <= s.len()
    &&& forall|k: int| i < k < e ==> (#[trigger] s[k]).depth > s[i].depth
    &&& e < s.len() ==> s[e].depth <= s[i].depth
}

/// The index behind the last descendant of `i`.
pub open spec fn subtree_end(s: Seq<NodeModel>, i: int) -> int {
    choose|e: int| is_subtree_end(s, i, e)
}

/// A subtree ends at one index.
pub proof fn lemma_subtree_end_unique(s: Seq<NodeModel>, i: int, e: int)
    requires
        is_subtree_end(s, i, e),
    ensures
        subtree_end(s, i) == e,
{
    let f = subtree_end(s, i);
    assert(is_subtree_end(s, i, f));
    if f < e {
        assert(s[f].depth > s[i].depth);
    } else if e < f {
        assert(s[e].depth > s[i].depth);
    }
}

/// Node `i` is the child of `p` that fills `field`: the first of its children
/// that does.
pub open spec fn fills_field(s: Seq<NodeModel>, p: int, i: int, field: Seq<char>) -> bool {
    &&& parent_of(s, i) == Some(p)
    &&& s[i].field == Some(field)
    &&& forall|j: int|
        p < j < i && #[trigger] parent_of(s, j) == Some(p) ==> s[j].field != Some(field)
}

/// The rows of a node can be counted from one.
pub open spec fn rows_fit(n: NodeModel) -> bool {
    n.start_row < usize::MAX && n.end_row < usize::MAX
}

/// A parsed file.
pub struct SyntaxTree {
    nodes: Vec<SyntaxNode>,
    parents: Vec<Option<usize>>,
}

/// The parent that is recorded for a node is its parent.
spec fn parent_recorded(s: Seq<NodeModel>, recorded: Option<usize>, i: int) -> bool {
    match recorded {
        Some(p) => is_parent(s, p as int, i),
        None => forall|p: int| !is_parent(s, p, i),
    }
}

impl View for SyntaxTree {
    type V = Seq<NodeModel>;

    closed spec fn view(&self) -> Seq<NodeModel> {
        node_models(self.nodes@)
    }
}

impl SyntaxTree {
    #[verifier::type_invariant]
    spec fn inv(self) -> bool {
        &&& self.nodes@.len() == self.parents@.len()
        &&& forall|i: int|
            0 <= i < self.nodes@.len() ==> parent_recorded(
                self@,
                #[trigger] self.parents@[i],
                i,
            )
        &&& forall|i: int| 0 <= i < self.nodes@.len() ==> rows_fit((#[trigger] self.nodes@[i])@)
    }

    /// The tree with the given nodes, in preorder. There is none where a row
    /// number cannot be counted from one.
    pub fn from_nodes(nodes: Vec<SyntaxNode>) -> (r: Option<SyntaxTree>)
        ensures
            r is Some <==> forall|i: int| 0 <= i < nodes@.len() ==> rows_fit((#[trigger] nodes@[i])@),
            r matches Some(t) ==> t@ == node_models(nodes@),
    {
        let mut parents: Vec<Option<usize>> = Vec::new();
        let ghost s = node_models(nodes@);
        let mut i: usize = 0;
        while i < nodes.len()
            invariant
                i <= nodes.len(),
                s == node_models(nodes@),
                parents@.len() == i,
                forall|k: int|
                    0 <= k < i ==> parent_recorded(s, #[trigger] parents@[k], k),
                forall|k: int| 0 <= k < i ==> rows_fit((#[trigger] nodes@[k])@),
            decreases nodes.len() - i,
        {
            if nodes[i].start_row == usize::MAX || nodes[i].end_row == usize::MAX {
                assert(!rows_fit(nodes@[i as int]@));
                return None;
            }
            let mut cand: Option<usize> = if i == 0 {
                None
            } else {
                Some(i - 1)
            };
            let mut found: bool = false;
            while !found && cand.is_some()
                invariant
                    i < nodes.len(),
                    s == node_models(nodes@),
                    parents@.len() == i,
                    forall|k: int|
                        0 <= k < i ==> parent_recorded(s, #[trigger] parents@[k], k),
                    match cand {
                        Some(c) => c < i && forall|k: int|
                            c < k < i ==> (#[trigger] s[k]).depth >= s[i as int].depth,
                        None => forall|k: int|
                            0 <= k < i ==> (#[trigger] s[k]).depth >= s[i as int].depth,
                    },
                    found ==> cand is Some && s[cand->0 as int].depth < s[i as int].depth,
                decreases
                        if found {
                            0int
                        } else {
                            match cand {
                                Some(c) => c + 2,
                                None => 1,
                            }
                        },
            {
                let c: usize = cand.unwrap();
                if nodes[c].depth < nodes[i].depth {
                    found = true;
                } else {
                    assert(parent_recorded(s, parents@[c as int], c as int));
                    cand = parents[c];
                    proof {
                        assert forall|k: int|
                            (match cand {
                                Some(q) => q < k < i,
                                None => 0 <= k < i,
                            }) implies (#[trigger] s[k]).depth >= s[i as int].depth by {
                            if k > c {
                            } else if k == c {
                            } else {
                                match cand {
                                    Some(q) => {
                                        assert(is_parent(s, q as int, c as int));
                                    },
                                    None => {
                                        lemma_no_parent(s, c as int, k);
                                    },
                                }
                            }
                        }
                    }
                }
            }
            proof {
                match cand {
                    Some(c) => {
                        assert(is_parent(s, c as int, i as int));
                    },
                    None => {
                        assert forall|p: int| !is_parent(s, p, i as int) by {
                            if 0 <= p < i {
                                assert(s[p].depth >= s[i as int].depth);
                            }
                        }
                    },
                }
            }
            parents.push(cand);
            i += 1;
        }
        Some(SyntaxTree { nodes, parents })
    }

    /// How many nodes there are.
    pub fn len(&self) -> (r: usize)
        ensures
            r == self@.len(),
    {
        self.nodes.len()
    }

    /// Node number `i`, in source order.
    pub fn node(&self, i: usize) -> (r: &SyntaxNode)
        requires
            i < self@.len(),
        ensures
            r@ == self@[i as int],
            rows_fit(r@),
    {
        proof {
            use_type_invariant(self);
        }
        &self.nodes[i]
    }

    /// The parent of node `i`.
    pub fn parent(&self, i: usize) -> (r: Option<usize>)
        requires
            i < self@.len(),
        ensures
            match r {
                Some(p) => parent_of(self@, i as int) == Some(p as int) && p < i,
                None => parent_of(self@, i as int) is None,
            },
    {
        proof {
            use_type_invariant(self);
            assert(parent_recorded(self@, self.parents@[i as int], i as int));
            if let Some(p) = self.parents@[i as int] {
                lemma_parent_unique(self@, p as int, i as int);
            }
        }
        self.parents[i]
    }

    /// Whether node `i` has no children.
    pub fn leaf(&self, i: usize) -> (r: bool)
        requires
            i < self@.len(),
        ensures
            r == is_leaf(self@, i as int),
    {
        let n: usize = self.nodes.len();
        if i + 1 >= n {
            return true;
        }
        self.nodes[i + 1].depth <= self.nodes[i].depth
    }

    /// The index behind the last descendant of node `i`.
    pub fn end_of(&self, i: usize) -> (r: usize)
        requires
            i < self@.len(),
        ensures
            is_subtree_end(self@, i as int, r as int),
            r == subtree_end(self@, i as int),
    {
        let n: usize = self.nodes.len();
        let mut e: usize = i + 1;
        while e < n && self.nodes[e].depth > self.nodes[i].depth
            invariant
                i < e <= n,
                n == self.nodes.len(),
                forall|k: int| i < k < e ==> (#[trigger] self@[k]).depth > self@[i as int].depth,
            decreases n - e,
        {
            e += 1;
        }
        proof {
            lemma_subtree_end_unique(self@, i as int, e as int);
        }
        e
    }

    /// Whether node `i` is the child of its parent `p` that fills `field`.
    pub fn is_field(&self, p: usize, i: usize, field: &str) -> (r: bool)
        requires
            i < self@.len(),
            parent_of(self@, i as int) == Some(p as int),
        ensures
            r == fills_field(self@, p as int, i as int, field@),
    {
        proof {
            lemma_parent_before(self@, i as int);
        }
        if !has_field(&self.nodes[i], field) {
            return false;
        }
        let mut j: usize = p + 1;
        while j < i
            invariant
                p < j <= i < self.nodes.len(),
                parent_of(self@, i as int) == Some(p as int),
                self@[i as int].field == Some(field@),
                self@.len() == self.nodes.len(),
                forall|k: int|
                    p < k < j && #[trigger] parent_of(self@, k) == Some(p as int)
                        ==> self@[k].field != Some(field@),
            decreases i - j,
        {
            let q: Option<usize> = self.parent(j);
            if q == Some(p) && has_field(&self.nodes[j], field) {
                assert(parent_of(self@, j as int) == Some(p as int));
                return false;
            }
            j += 1;
        }
        true
    }
}

/// A node without a parent is no deeper than any node before it.
proof fn lemma_no_parent(s: Seq<NodeModel>, i: int, k: int)
    requires
        0 <= k < i < s.len(),
        forall|p: int| !is_parent(s, p, i),
    ensures
        s[k].depth >= s[i].depth,
    decreases i - k,
{
    if s[k].depth < s[i].depth {
        assert forall|j: int| k < j < i implies (#[trigger] s[j]).depth >= s[i].depth by {
            lemma_no_parent(s, i, j);
        }
        assert(is_parent(s, k, i));
    }
}

/// Whether `n` fills the field `field` of its parent.
fn has_field(n: &SyntaxNode, field: &str) -> (r: bool)
    ensures
        r == (n@.field == Some(field@)),
{
    match &n.field {
        Some(f) => crate::text::same_text(f.as_str(), field),
        None => false,
    }
}

/// The parent of a node is the nearest node before it that is less deep; a node
/// that none before it is less deep than has no parent.
pub proof fn law_parents(s: Seq<NodeModel>, i: int, p: int)
    requires
        0 <= i < s.len(),
    ensures
        parent_of(s, i) == Some(p) <==> {
            &&& 0 <= p < i
            &&& s[p].depth < s[i].depth
            &&& forall|k: int| p < k < i ==> (#[trigger] s[k]).depth >= s[i].depth
        },
        parent_of(s, i) is None <==> forall|k: int|
            0 <= k < i ==> (#[trigger] s[k]).depth >= s[i].depth,
{
    lemma_parent_before(s, i);
    if is_parent(s, p, i) {
        lemma_parent_unique(s, p, i);
    }
    if parent_of(s, i) is None {
        assert forall|k: int| 0 <= k < i implies (#[trigger] s[k]).depth >= s[i].depth by {
            lemma_no_parent(s, i, k);
        }
    }
}

/// The ancestors of a node, which are the nodes before it that everything behind
/// them up to the node is deeper than, are its parent and the ancestors of that.
pub proof fn law_ancestors(s: Seq<NodeModel>, i: int, a: int)
    requires
        0 <= a < i < s.len(),
    ensures
        (forall|k: int| a < k <= i ==> (#[trigger] s[k]).depth > s[a].depth) <==> (parent_of(
            s,
            i,
        ) is Some && (parent_of(s, i)->0 == a || (a < parent_of(s, i)->0 && forall|k: int|
            a < k <= parent_of(s, i)->0 ==> (#[trigger] s[k]).depth > s[a].depth))),
{
    lemma_parent_before(s, i);
    if parent_of(s, i) is Some {
        let p = parent_of(s, i)->0;
        if forall|k: int| a < k <= i ==> (#[trigger] s[k]).depth > s[a].depth {
            assert(s[i].depth > s[a].depth);
            if a > p {
                assert(s[a].depth >= s[i].depth);
            }
        }
        if a < p && forall|k: int| a < k <= p ==> (#[trigger] s[k]).depth > s[a].depth {
            assert(s[p].depth > s[a].depth);
        }
    } else if forall|k: int| a < k <= i ==> (#[trigger] s[k]).depth > s[a].depth {
        assert(s[i].depth > s[a].depth);
        lemma_no_parent(s, i, a);
    }
}

/// A node fills a field of its parent where it is said to, and none of the
/// children before it is.
pub proof fn law_fields(s: Seq<NodeModel>, p: int, i: int, field: Seq<char>)
    ensures
        fills_field(s, p, i, field) <==> parent_of(s, i) == Some(p) && s[i].field == Some(field)
            && !exists|j: int|
            p < j < i && #[trigger] parent_of(s, j) == Some(p) && s[j].field == Some(field),
{
}

/// A node is a leaf exactly where no node has it as its parent.
pub proof fn law_leaves(s: Seq<NodeModel>, i: int)
    requires
        0 <= i < s.len(),
    ensures
        is_leaf(s, i) <==> forall|j: int| 0 <= j < s.len() ==> #[trigger] parent_of(s, j) != Some(i),
{
    if is_leaf(s, i) {
        assert forall|j: int| 0 <= j < s.len() implies #[trigger] parent_of(s, j) != Some(i) by {
            lemma_parent_before(s, j);
            if parent_of(s, j) == Some(i) {
                if j > i + 1 {
                    assert(s[i + 1].depth >= s[j].depth);
                }
            }
        }
    } else {
        assert(is_parent(s, i, i + 1));
        lemma_parent_unique(s, i, i + 1);
    }
}

} // verus!
