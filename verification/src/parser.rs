//! From a source text to its flattened syntax tree. The parsing is done by
//! tree-sitter with the Java grammar; the walk over its tree is done here.

use vstd::prelude::*;
use vstd::utf8::*;
use crate::keywords::{bytes_equal, word};
use crate::syntax::{
    first_child,
    lemma_last_child_ends_parent,
    lemma_parent,
    lemma_root_spans_all,
    next_sibling,
    parent,
    subtree_end,
    well_formed,
    FieldTag,
    NodeKind,
    SyntaxNode,
    SyntaxTree,
};

verus! {

#[verifier::external_type_specification]
#[verifier::external_body]
pub struct ExTree(tree_sitter::Tree);

#[verifier::external_type_specification]
#[verifier::external_body]
pub struct ExTreeCursor<'tree>(tree_sitter::TreeCursor<'tree>);

/// A node as tree-sitter shows it: the grammar's name for its kind, the
/// grammar's name for its field within its parent, its byte span, and the
/// number of its ancestors.
pub ghost struct RawNode {
    pub kind: Seq<char>,
    pub field: Option<Seq<char>>,
    pub start: usize,
    pub end: usize,
    pub depth: usize,
}

/// What tree-sitter makes of a Java source: the nodes of the syntax tree that
/// it builds, in pre-order, or nothing where it builds no tree.
pub uninterp spec fn java_syntax(source: Seq<char>) -> Option<Seq<RawNode>>;

/// The nodes that a tree of tree-sitter holds, in pre-order.
pub uninterp spec fn tree_nodes(tree: tree_sitter::Tree) -> Seq<RawNode>;

/// The nodes of the tree that a cursor walks, in pre-order.
pub uninterp spec fn cursor_nodes(cursor: tree_sitter::TreeCursor) -> Seq<RawNode>;

/// The place, among the nodes of its tree, of the node that a cursor stands on.
pub uninterp spec fn cursor_index(cursor: tree_sitter::TreeCursor) -> int;

/// The kind that the grammar's name for a node stands for.
pub open spec fn kind_named(name: Seq<u8>) -> NodeKind {
    if name == word("method_declaration") {
        NodeKind::MethodDeclaration
    } else if name == word("formal_parameter") {
        NodeKind::FormalParameter
    } else if name == word("spread_parameter") {
        NodeKind::SpreadParameter
    } else if name == word("local_variable_declaration") {
        NodeKind::LocalVariableDeclaration
    } else if name == word("variable_declarator") {
        NodeKind::VariableDeclarator
    } else if name == word("identifier") {
        NodeKind::Identifier
    } else {
        NodeKind::Other
    }
}

/// The field that the grammar's name for a field stands for.
pub open spec fn field_named(name: Option<Seq<u8>>) -> FieldTag {
    match name {
        Some(n) => {
            if n == word("name") {
                FieldTag::Name
            } else if n == word("parameters") {
                FieldTag::Parameters
            } else if n == word("body") {
                FieldTag::Body
            } else {
                FieldTag::Other
            }
        },
        None => FieldTag::Other,
    }
}

/// The kind of a node from the grammar's name for it.
pub fn node_kind(name: &str) -> (kind: NodeKind)
    ensures
        kind == kind_named(encode_utf8(name@)),
{
    let bytes = name.as_bytes();
    if bytes_equal(bytes, "method_declaration".as_bytes()) {
        NodeKind::MethodDeclaration
    } else if bytes_equal(bytes, "formal_parameter".as_bytes()) {
        NodeKind::FormalParameter
    } else if bytes_equal(bytes, "spread_parameter".as_bytes()) {
        NodeKind::SpreadParameter
    } else if bytes_equal(bytes, "local_variable_declaration".as_bytes()) {
        NodeKind::LocalVariableDeclaration
    } else if bytes_equal(bytes, "variable_declarator".as_bytes()) {
        NodeKind::VariableDeclarator
    } else if bytes_equal(bytes, "identifier".as_bytes()) {
        NodeKind::Identifier
    } else {
        NodeKind::Other
    }
}

/// The field of a node from the grammar's name for it.
pub fn field_tag(name: Option<&str>) -> (field: FieldTag)
    ensures
        field == field_named(
            match name {
                Some(n) => Some(encode_utf8(n@)),
                None => None,
            },
        ),
{
    match name {
        Some(n) => {
            let bytes = n.as_bytes();
            if bytes_equal(bytes, "name".as_bytes()) {
                FieldTag::Name
            } else if bytes_equal(bytes, "parameters".as_bytes()) {
                FieldTag::Parameters
            } else if bytes_equal(bytes, "body".as_bytes()) {
                FieldTag::Body
            } else {
                FieldTag::Other
            }
        },
        None => FieldTag::Other,
    }
}

/// What the renamers read of a node of tree-sitter.
pub open spec fn shape(raw: RawNode) -> SyntaxNode {
    SyntaxNode {
        kind: kind_named(encode_utf8(raw.kind)),
        field: field_named(
            match raw.field {
                Some(f) => Some(encode_utf8(f)),
                None => None,
            },
        ),
        start: raw.start,
        end: raw.end,
        depth: raw.depth,
    }
}

/// What the renamers read of the nodes of tree-sitter.
pub open spec fn shapes(raws: Seq<RawNode>) -> Seq<SyntaxNode> {
    raws.map_values(|raw: RawNode| shape(raw))
}

/// The flattened syntax tree of a Java source, where it has one.
pub open spec fn java_nodes(source: Seq<char>) -> Option<Seq<SyntaxNode>> {
    match java_syntax(source) {
        Some(raws) => Some(shapes(raws)),
        None => None,
    }
}

/// The tree that a cursor walks, as the renamers read it.
pub open spec fn walked(cursor: tree_sitter::TreeCursor) -> Seq<SyntaxNode> {
    shapes(cursor_nodes(cursor))
}

/// The node that a cursor stands on.
pub open spec fn under(cursor: tree_sitter::TreeCursor) -> RawNode {
    cursor_nodes(cursor)[cursor_index(cursor)]
}

/// How a cursor has moved: it walks the tree that it walked before; where
/// there is a node to go to, it stands on it and says that it has moved; where
/// there is none, it stands where it stood and says that it has not.
pub open spec fn stepped(
    before: tree_sitter::TreeCursor,
    after: tree_sitter::TreeCursor,
    target: Option<int>,
    moved: bool,
) -> bool {
    &&& cursor_nodes(after) == cursor_nodes(before)
    &&& match target {
        Some(j) => moved && cursor_index(after) == j,
        None => !moved && cursor_index(after) == cursor_index(before),
    }
}

/// `tree_sitter::Parser::new`, `tree_sitter::Parser::set_language` with
/// `tree_sitter_java::LANGUAGE`, then `tree_sitter::Parser::parse` on the
/// whole text, without an earlier tree. What is claimed: the outcome is
/// the same for the same source, both whether there is a tree and which; a
/// tree has a root, and its nodes in pre-order have the depths of a walk.
/// Nothing is claimed on which sources have a tree: there is none where the
/// grammar is refused or the parser gives up.
#[verifier::external_body]
fn parse_as_java(source: &str) -> (parsed: Option<tree_sitter::Tree>)
    ensures
        match parsed {
            Some(tree) => {
                &&& java_syntax(source@) == Some(tree_nodes(tree))
                &&& tree_nodes(tree).len() > 0
                &&& well_formed(shapes(tree_nodes(tree)))
            },
            None => java_syntax(source@).is_none(),
        },
{
    let mut parser = tree_sitter::Parser::new();
    parser.set_language(&tree_sitter_java::LANGUAGE.into()).ok()?;
    parser.parse(source, None)
}

/// `tree_sitter::Tree::walk`: a cursor that walks the nodes of the tree and
/// stands on its root, the first of them.
#[verifier::external_body]
fn walk_tree<'tree>(tree: &'tree tree_sitter::Tree) -> (cursor: tree_sitter::TreeCursor<'tree>)
    ensures
        cursor_nodes(cursor) == tree_nodes(*tree),
        cursor_index(cursor) == 0,
{
    tree.walk()
}

/// `tree_sitter::Node::kind` of the node under the cursor: the grammar's
/// name for the kind of that node.
#[verifier::external_body]
fn cursor_kind<'tree>(cursor: &tree_sitter::TreeCursor<'tree>) -> (kind: &'tree str)
    ensures
        kind@ == under(*cursor).kind,
{
    cursor.node().kind()
}

/// `tree_sitter::TreeCursor::field_name`: the grammar's name for the field
/// of the node under the cursor within its parent, if it has one.
#[verifier::external_body]
fn cursor_field<'tree>(cursor: &tree_sitter::TreeCursor<'tree>) -> (field: Option<&'tree str>)
    ensures
        match field {
            Some(f) => under(*cursor).field == Some(f@),
            None => under(*cursor).field.is_none(),
        },
{
    cursor.field_name()
}

/// `tree_sitter::Node::start_byte` of the node under the cursor: the byte
/// offset at which that node starts.
#[verifier::external_body]
fn cursor_start(cursor: &tree_sitter::TreeCursor) -> (start: usize)
    ensures
        start == under(*cursor).start,
{
    cursor.node().start_byte()
}

/// `tree_sitter::Node::end_byte` of the node under the cursor: the byte
/// offset at which that node ends.
#[verifier::external_body]
fn cursor_end(cursor: &tree_sitter::TreeCursor) -> (end: usize)
    ensures
        end == under(*cursor).end,
{
    cursor.node().end_byte()
}

/// `tree_sitter::TreeCursor::goto_first_child`: the cursor goes to the first
/// child of the node under it and `true` is returned; where that node has no
/// children, the cursor stays and `false` is returned.
#[verifier::external_body]
fn goto_first_child(cursor: &mut tree_sitter::TreeCursor) -> (moved: bool)
    ensures
        stepped(
            *old(cursor),
            *final(cursor),
            first_child(walked(*old(cursor)), cursor_index(*old(cursor))),
            moved,
        ),
{
    cursor.goto_first_child()
}

/// `tree_sitter::TreeCursor::goto_next_sibling`: the cursor goes to the next
/// sibling of the node under it and `true` is returned; where that node has
/// no next sibling, the cursor stays and `false` is returned.
#[verifier::external_body]
fn goto_next_sibling(cursor: &mut tree_sitter::TreeCursor) -> (moved: bool)
    ensures
        stepped(
            *old(cursor),
            *final(cursor),
            next_sibling(walked(*old(cursor)), cursor_index(*old(cursor))),
            moved,
        ),
{
    cursor.goto_next_sibling()
}

/// `tree_sitter::TreeCursor::goto_parent`: the cursor goes to the parent of
/// the node under it and `true` is returned; on the root, the cursor stays
/// and `false` is returned.
#[verifier::external_body]
fn goto_parent(cursor: &mut tree_sitter::TreeCursor) -> (moved: bool)
    ensures
        stepped(
            *old(cursor),
            *final(cursor),
            parent(walked(*old(cursor)), cursor_index(*old(cursor))),
            moved,
        ),
{
    cursor.goto_parent()
}

/// Moves the cursor from a node without children to the node that follows
/// in pre-order: the next sibling of the node or, where it has none, of the
/// nearest ancestor that has one. Returns whether there is such a node;
/// `depth` follows the cursor.
fn advance_past(cursor: &mut tree_sitter::TreeCursor, depth: &mut usize) -> (more: bool)
    requires
        well_formed(walked(*old(cursor))),
        0 <= cursor_index(*old(cursor)) < cursor_nodes(*old(cursor)).len(),
        *old(depth) == under(*old(cursor)).depth,
        first_child(walked(*old(cursor)), cursor_index(*old(cursor))).is_none(),
    ensures
        cursor_nodes(*final(cursor)) == cursor_nodes(*old(cursor)),
        more ==> {
            &&& cursor_index(*final(cursor)) == cursor_index(*old(cursor)) + 1
            &&& cursor_index(*final(cursor)) < cursor_nodes(*final(cursor)).len()
            &&& *final(depth) == under(*final(cursor)).depth
        },
        !more ==> cursor_index(*old(cursor)) + 1 == cursor_nodes(*old(cursor)).len(),
{
    let ghost all = walked(*cursor);
    let ghost next = cursor_index(*cursor) + 1;
    loop
        invariant
            cursor_nodes(*cursor) == cursor_nodes(*old(cursor)),
            all == walked(*cursor),
            well_formed(all),
            0 < next == cursor_index(*old(cursor)) + 1,
            0 <= cursor_index(*cursor) < all.len(),
            *depth == all[cursor_index(*cursor)].depth,
            subtree_end(all, cursor_index(*cursor)) == next,
        decreases *depth,
    {
        let ghost at = cursor_index(*cursor);
        if *depth == 0 {
            proof {
                if at > 0 {
                    assert(1 <= all[at].depth <= all[at - 1].depth + 1);
                }
                lemma_root_spans_all(all);
            }
            return false;
        }
        if goto_next_sibling(cursor) {
            proof {
                assert(next_sibling(all, at) == Some(next));
                assert(all[next] == shape(cursor_nodes(*cursor)[next]));
            }
            return true;
        }
        proof {
            lemma_parent(all, at);
            lemma_last_child_ends_parent(all, at);
        }
        goto_parent(cursor);
        *depth -= 1;
    }
}

/// What the renamers read of the node under the cursor.
fn read_node(cursor: &tree_sitter::TreeCursor, depth: usize) -> (node: SyntaxNode)
    requires
        depth == under(*cursor).depth,
    ensures
        node == shape(under(*cursor)),
{
    SyntaxNode {
        kind: node_kind(cursor_kind(cursor)),
        field: field_tag(cursor_field(cursor)),
        start: cursor_start(cursor),
        end: cursor_end(cursor),
        depth,
    }
}

/// The tree that the cursor walks, flattened by a walk from its root: down
/// to the first child where there is one, else on to the next sibling of the
/// node or of its nearest ancestor that has one.
fn flatten(cursor: &mut tree_sitter::TreeCursor) -> (tree: SyntaxTree)
    requires
        cursor_index(*old(cursor)) == 0,
        cursor_nodes(*old(cursor)).len() > 0,
        well_formed(walked(*old(cursor))),
    ensures
        tree@ == walked(*old(cursor)),
{
    let ghost all = walked(*cursor);
    let mut nodes: Vec<SyntaxNode> = Vec::new();
    let mut depth: usize = 0;
    let mut more: bool = true;
    while more
        invariant
            cursor_nodes(*cursor) == cursor_nodes(*old(cursor)),
            all == walked(*cursor),
            well_formed(all),
            nodes@.len() <= all.len(),
            nodes@ == all.take(nodes@.len() as int),
            more ==> {
                &&& nodes@.len() < all.len()
                &&& cursor_index(*cursor) == nodes@.len()
                &&& depth == all[nodes@.len() as int].depth
            },
            !more ==> nodes@.len() == all.len(),
        decreases all.len() - nodes@.len(),
    {
        let ghost at = nodes@.len() as int;
        let node = read_node(cursor, depth);
        nodes.push(node);
        assert(nodes@ =~= all.take(at + 1));
        if goto_first_child(cursor) {
            assert(1 <= all[at + 1].depth <= all[at].depth + 1);
            depth += 1;
        } else {
            more = advance_past(cursor, &mut depth);
        }
    }
    assert(all.take(all.len() as int) =~= all);
    SyntaxTree::new(nodes)
}

/// Parses `source` as Java and flattens the tree. Where tree-sitter builds
/// a syntax tree for the source, the result holds every node of it, in
/// pre-order, and is well-formed; where it builds none, because the grammar
/// is refused or the parser gives up, the result is `None`.
pub fn parse_java(source: &str) -> (parsed: Option<SyntaxTree>)
    ensures
        match parsed {
            Some(tree) => {
                &&& java_nodes(source@) == Some(tree@)
                &&& well_formed(tree@)
                &&& tree@.len() > 0
            },
            None => java_nodes(source@).is_none(),
        },
{
    match parse_as_java(source) {
        Some(tree) => {
            let mut cursor = walk_tree(&tree);
            Some(flatten(&mut cursor))
        },
        None => None,
    }
}

} // verus!
