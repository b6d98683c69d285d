//! The shape of a parsed source that the renamers read: the nodes of the
//! syntax tree in pre-order, each with its kind, its field within its parent,
//! its byte span and its depth.

use vstd::prelude::*;

verus! {

/// The kinds of node that the renamers tell apart.
#[derive(Clone, Copy, PartialEq, Eq, Structural, Debug)]
pub enum NodeKind {
    MethodDeclaration,
    FormalParameter,
    SpreadParameter,
    LocalVariableDeclaration,
    VariableDeclarator,
    Identifier,
    Other,
}

/// The field under which a node hangs in its parent, as far as the renamers
/// look for it.
#[derive(Clone, Copy, PartialEq, Eq, Structural, Debug)]
pub enum FieldTag {
    Name,
    Parameters,
    Body,
    Other,
}

/// One node of the tree.
#[derive(Clone, Copy, PartialEq, Eq, Structural, Debug)]
pub struct SyntaxNode {
    pub kind: NodeKind,
    pub field: FieldTag,
    /// First byte of the node in the source.
    pub start: usize,
    /// One past its last byte.
    pub end: usize,
    /// Number of ancestors; the root has depth 0.
    pub depth: usize,
}

/// A syntax tree, flattened: the nodes in pre-order. The nodes below node `i`
/// are the run of deeper nodes that follows it.
pub struct SyntaxTree {
    pub nodes: Vec<SyntaxNode>,
}

impl View for SyntaxTree {
    type V = Seq<SyntaxNode>;

    open spec fn view(&self) -> Seq<SyntaxNode> {
        self.nodes@
    }
}

/// The depths are those of a pre-order walk of one tree: the first node is
/// the only root, and a node is at most one level below the node before it.
pub open spec fn well_formed(nodes: Seq<SyntaxNode>) -> bool {
    &&& nodes.len() > 0 ==> nodes[0].depth == 0
    &&& forall|i: int, j: int|
        0 <= i && j == i + 1 && j < nodes.len() ==> 1 <= (#[trigger] nodes[j]).depth <= (
        #[trigger] nodes[i]).depth + 1
}

/// The first index from `j` on whose node is not deeper than `depth`, or the
/// number of nodes.
pub open spec fn skip_deeper(nodes: Seq<SyntaxNode>, j: int, depth: int) -> int
    decreases nodes.len() - j,
{
    if j < 0 || j >= nodes.len() || nodes[j].depth <= depth {
        j
    } else {
        skip_deeper(nodes, j + 1, depth)
    }
}

/// One past the last node below node `i`.
pub open spec fn subtree_end(nodes: Seq<SyntaxNode>, i: int) -> int {
    skip_deeper(nodes, i + 1, nodes[i].depth as int)
}

/// Among the nodes from `j` on that are deeper than `depth`, the first that
/// is exactly one level deeper and hangs under `field`.
pub open spec fn first_child_from(
    nodes: Seq<SyntaxNode>,
    j: int,
    depth: int,
    field: FieldTag,
) -> Option<int>
    decreases nodes.len() - j,
{
    if j < 0 || j >= nodes.len() || nodes[j].depth <= depth {
        None
    } else if nodes[j].depth == depth + 1 && nodes[j].field == field {
        Some(j)
    } else {
        first_child_from(nodes, j + 1, depth, field)
    }
}

/// The first child of node `i` that hangs under `field`.
pub open spec fn child_by_field(nodes: Seq<SyntaxNode>, i: int, field: FieldTag) -> Option<int> {
    first_child_from(nodes, i + 1, nodes[i].depth as int, field)
}

/// Among the nodes from `j` on that are deeper than `depth`, the first that
/// is exactly one level deeper and of kind `kind`.
pub open spec fn first_kind_from(
    nodes: Seq<SyntaxNode>,
    j: int,
    depth: int,
    kind: NodeKind,
) -> Option<int>
    decreases nodes.len() - j,
{
    if j < 0 || j >= nodes.len() || nodes[j].depth <= depth {
        None
    } else if nodes[j].depth == depth + 1 && nodes[j].kind == kind {
        Some(j)
    } else {
        first_kind_from(nodes, j + 1, depth, kind)
    }
}

/// The first child of node `i` that is of kind `kind`.
pub open spec fn child_by_kind(nodes: Seq<SyntaxNode>, i: int, kind: NodeKind) -> Option<int> {
    first_kind_from(nodes, i + 1, nodes[i].depth as int, kind)
}

/// The children of a node at `depth`, looked for from `j` on, in their order.
pub open spec fn children_from(nodes: Seq<SyntaxNode>, j: int, depth: int) -> Seq<int>
    decreases nodes.len() - j,
{
    if j < 0 || j >= nodes.len() || nodes[j].depth <= depth {
        Seq::empty()
    } else if nodes[j].depth == depth + 1 {
        seq![j] + children_from(nodes, j + 1, depth)
    } else {
        children_from(nodes, j + 1, depth)
    }
}

/// The children of node `i`, in their order.
pub open spec fn children(nodes: Seq<SyntaxNode>, i: int) -> Seq<int> {
    children_from(nodes, i + 1, nodes[i].depth as int)
}

/// The nearest node before `j`, looked for from `i` backwards, that is less
/// deep than `depth`.
pub open spec fn shallower_before(nodes: Seq<SyntaxNode>, i: int, depth: int) -> Option<int>
    decreases i + 1,
{
    if i < 0 || i >= nodes.len() {
        None
    } else if nodes[i].depth < depth {
        Some(i)
    } else {
        shallower_before(nodes, i - 1, depth)
    }
}

/// The parent of node `j`: the nearest node before it that is less deep.
pub open spec fn parent(nodes: Seq<SyntaxNode>, j: int) -> Option<int> {
    shallower_before(nodes, j - 1, nodes[j].depth as int)
}

/// The first child of node `i`: the node that follows it, if that is deeper.
pub open spec fn first_child(nodes: Seq<SyntaxNode>, i: int) -> Option<int> {
    if 0 <= i && i + 1 < nodes.len() && nodes[i + 1].depth > nodes[i].depth {
        Some(i + 1)
    } else {
        None
    }
}

/// The next sibling of node `i`: the node that follows the nodes below it,
/// if that is as deep as node `i`.
pub open spec fn next_sibling(nodes: Seq<SyntaxNode>, i: int) -> Option<int> {
    if 0 <= i < nodes.len() && subtree_end(nodes, i) < nodes.len() && nodes[subtree_end(
        nodes,
        i,
    )].depth == nodes[i].depth {
        Some(subtree_end(nodes, i))
    } else {
        None
    }
}

/// What [`skip_deeper`] skips: a run of nodes deeper than `depth`, ended by
/// a node that is not deeper or by the end of the tree.
pub proof fn lemma_skip_deeper(nodes: Seq<SyntaxNode>, j: int, depth: int)
    requires
        0 <= j <= nodes.len(),
    ensures
        j <= skip_deeper(nodes, j, depth) <= nodes.len(),
        forall|k: int| j <= k < skip_deeper(nodes, j, depth) ==> (#[trigger] nodes[k]).depth > depth,
        skip_deeper(nodes, j, depth) < nodes.len() ==> nodes[skip_deeper(nodes, j, depth)].depth
            <= depth,
    decreases nodes.len() - j,
{
    if j < nodes.len() && nodes[j].depth > depth {
        lemma_skip_deeper(nodes, j + 1, depth);
    }
}

/// Skipping from the first node of a run of deeper nodes is skipping from
/// its end.
pub proof fn lemma_skip_run(nodes: Seq<SyntaxNode>, a: int, b: int, depth: int)
    requires
        0 <= a <= b <= nodes.len(),
        forall|k: int| a <= k < b ==> (#[trigger] nodes[k]).depth > depth,
    ensures
        skip_deeper(nodes, a, depth) == skip_deeper(nodes, b, depth),
    decreases b - a,
{
    if a < b {
        lemma_skip_run(nodes, a + 1, b, depth);
    }
}

/// In a well-formed tree the whole tree lies below the root.
pub proof fn lemma_root_spans_all(nodes: Seq<SyntaxNode>)
    requires
        well_formed(nodes),
        nodes.len() > 0,
    ensures
        subtree_end(nodes, 0) == nodes.len(),
{
    assert forall|k: int| 1 <= k < nodes.len() implies (#[trigger] nodes[k]).depth > 0 by {
        assert(1 <= nodes[k].depth <= nodes[k - 1].depth + 1);
    }
    lemma_skip_run(nodes, 1, nodes.len() as int, 0);
}

proof fn lemma_shallower_before(nodes: Seq<SyntaxNode>, i: int, j: int)
    requires
        well_formed(nodes),
        0 <= i < j < nodes.len(),
        forall|k: int| i < k < j ==> (#[trigger] nodes[k]).depth >= nodes[j].depth,
        nodes[i].depth + 1 >= nodes[j].depth,
        nodes[j].depth >= 1,
    ensures
        match shallower_before(nodes, i, nodes[j].depth as int) {
            Some(p) => {
                &&& 0 <= p <= i
                &&& nodes[p].depth + 1 == nodes[j].depth
                &&& forall|k: int| p < k < j ==> (#[trigger] nodes[k]).depth >= nodes[j].depth
            },
            None => false,
        },
    decreases i,
{
    if nodes[i].depth >= nodes[j].depth {
        if i > 0 {
            assert(1 <= nodes[i].depth <= nodes[i - 1].depth + 1);
            lemma_shallower_before(nodes, i - 1, j);
        }
    }
}

/// In a well-formed tree every node but the root has a parent: it is one
/// level less deep, and the nodes between the two are at least as deep as
/// the node.
pub proof fn lemma_parent(nodes: Seq<SyntaxNode>, j: int)
    requires
        well_formed(nodes),
        0 < j < nodes.len(),
    ensures
        match parent(nodes, j) {
            Some(p) => {
                &&& 0 <= p < j
                &&& nodes[p].depth + 1 == nodes[j].depth
                &&& forall|k: int| p < k < j ==> (#[trigger] nodes[k]).depth >= nodes[j].depth
            },
            None => false,
        },
{
    assert(1 <= nodes[j].depth <= nodes[j - 1].depth + 1);
    lemma_shallower_before(nodes, j - 1, j);
}

/// In a well-formed tree a node without a next sibling ends where its
/// parent ends.
pub proof fn lemma_last_child_ends_parent(nodes: Seq<SyntaxNode>, j: int)
    requires
        well_formed(nodes),
        0 < j < nodes.len(),
        next_sibling(nodes, j).is_none(),
    ensures
        parent(nodes, j).is_some(),
        subtree_end(nodes, parent(nodes, j).unwrap()) == subtree_end(nodes, j),
{
    lemma_parent(nodes, j);
    let p = parent(nodes, j).unwrap();
    let e = subtree_end(nodes, j);
    lemma_skip_deeper(nodes, j + 1, nodes[j].depth as int);
    assert forall|k: int| p + 1 <= k < e implies (#[trigger] nodes[k]).depth > nodes[p].depth by {
        if k < j {
            assert(nodes[k].depth >= nodes[j].depth);
        }
    }
    lemma_skip_run(nodes, p + 1, e, nodes[p].depth as int);
}

impl SyntaxTree {
    /// A tree of the given nodes.
    pub fn new(nodes: Vec<SyntaxNode>) -> (tree: SyntaxTree)
        ensures
            tree@ == nodes@,
    {
        SyntaxTree { nodes }
    }

    /// The number of nodes.
    pub fn len(&self) -> (n: usize)
        ensures
            n == self@.len(),
    {
        self.nodes.len()
    }

    /// Whether the depths are those of a pre-order walk of one tree.
    pub fn is_well_formed(&self) -> (ok: bool)
        ensures
            ok == well_formed(self@),
    {
        let n: usize = self.nodes.len();
        if n == 0 {
            return true;
        }
        if self.nodes[0].depth != 0 {
            return false;
        }
        let mut i: usize = 1;
        while i < n
            invariant
                n == self@.len(),
                1 <= i <= n,
                self@[0].depth == 0,
                forall|k: int, j: int|
                    0 <= k && j == k + 1 && j < i ==> 1 <= (#[trigger] self@[j]).depth <= (
                    #[trigger] self@[k]).depth + 1,
            decreases n - i,
        {
            let d: usize = self.nodes[i].depth;
            let before: usize = self.nodes[i - 1].depth;
            if d < 1 || d - 1 > before {
                return false;
            }
            i += 1;
        }
        true
    }

    /// One past the last node below node `i`.
    pub fn subtree_end(&self, i: usize) -> (end: usize)
        requires
            i < self@.len(),
        ensures
            end == subtree_end(self@, i as int),
            i < end <= self@.len(),
    {
        let n: usize = self.nodes.len();
        let depth: usize = self.nodes[i].depth;
        let mut j: usize = i + 1;
        while j < n && self.nodes[j].depth > depth
            invariant
                n == self@.len(),
                i < j <= n,
                skip_deeper(self@, j as int, depth as int) == skip_deeper(
                    self@,
                    i + 1,
                    depth as int,
                ),
            decreases n - j,
        {
            j += 1;
        }
        j
    }

    /// The first child of node `i` that hangs under `field`.
    pub fn child_by_field(&self, i: usize, field: FieldTag) -> (child: Option<usize>)
        requires
            i < self@.len(),
        ensures
            match child {
                Some(c) => child_by_field(self@, i as int, field) == Some(c as int) && i < c
                    < self@.len(),
                None => child_by_field(self@, i as int, field).is_none(),
            },
    {
        let n: usize = self.nodes.len();
        let depth: usize = self.nodes[i].depth;
        let mut j: usize = i + 1;
        while j < n && self.nodes[j].depth > depth
            invariant
                n == self@.len(),
                i < j <= n,
                first_child_from(self@, j as int, depth as int, field) == child_by_field(
                    self@,
                    i as int,
                    field,
                ),
            decreases n - j,
        {
            if self.nodes[j].depth - 1 == depth && self.nodes[j].field == field {
                return Some(j);
            }
            j += 1;
        }
        None
    }

    /// The first child of node `i` that is of kind `kind`.
    pub fn child_by_kind(&self, i: usize, kind: NodeKind) -> (child: Option<usize>)
        requires
            i < self@.len(),
        ensures
            match child {
                Some(c) => child_by_kind(self@, i as int, kind) == Some(c as int) && i < c
                    < self@.len(),
                None => child_by_kind(self@, i as int, kind).is_none(),
            },
    {
        let n: usize = self.nodes.len();
        let depth: usize = self.nodes[i].depth;
        let mut j: usize = i + 1;
        while j < n && self.nodes[j].depth > depth
            invariant
                n == self@.len(),
                i < j <= n,
                first_kind_from(self@, j as int, depth as int, kind) == child_by_kind(
                    self@,
                    i as int,
                    kind,
                ),
            decreases n - j,
        {
            if self.nodes[j].depth - 1 == depth && self.nodes[j].kind == kind {
                return Some(j);
            }
            j += 1;
        }
        None
    }

    /// The parent of node `j`.
    pub fn parent(&self, j: usize) -> (p: Option<usize>)
        requires
            j < self@.len(),
        ensures
            match p {
                Some(i) => parent(self@, j as int) == Some(i as int) && i < j,
                None => parent(self@, j as int).is_none(),
            },
    {
        let depth: usize = self.nodes[j].depth;
        let mut i: usize = j;
        while i > 0
            invariant
                i <= j < self@.len(),
                shallower_before(self@, i - 1, depth as int) == parent(self@, j as int),
            decreases i,
        {
            i -= 1;
            if self.nodes[i].depth < depth {
                return Some(i);
            }
        }
        None
    }
}

} // verus!
