//! The local-identifier renamer: for every method, the names of its
//! parameters and local variables are collected in a table of their own, and
//! every identifier of the method that stands in the table is replaced.

use vstd::prelude::*;
use vstd::utf8::*;
use vstd::slice::*;
use crate::keywords::{bytes_equal, is_reserved, is_reserved_word};
use crate::laws::protected_text_kept;
use crate::names::{lemma_synthetic_plain, local_name, make_local_name};
use crate::patch::{patched, Edit};
use crate::rewrite::{acceptable, Rewrite};
use crate::syntax::{
    child_by_field,
    child_by_kind,
    parent,
    subtree_end,
    FieldTag,
    NodeKind,
    SyntaxNode,
    SyntaxTree,
};

verus! {

/// What a walk over a part of a method looks for.
#[derive(Clone, Copy, PartialEq, Eq, Structural, Debug)]
pub enum Pass {
    /// The names that the parameter list declares.
    Parameters,
    /// The names that the local variable declarations of the body declare.
    Declarations,
    /// The identifiers of the body.
    References,
}

/// The names of one method, each standing for the synthetic name with its
/// place in the table, counted from 1. No name stands in it twice, and no
/// reserved word stands in it.
pub struct ScopeTable {
    names: Vec<Vec<u8>>,
}

impl View for ScopeTable {
    type V = Seq<Seq<u8>>;

    closed spec fn view(&self) -> Seq<Seq<u8>> {
        Seq::new(self.names@.len(), |k: int| self.names@[k]@)
    }
}

/// No name stands in the table twice, and none is a reserved word.
pub open spec fn proper_table(table: Seq<Seq<u8>>) -> bool {
    &&& forall|i: int, j: int|
        0 <= i < j < table.len() ==> (#[trigger] table[i]) != (#[trigger] table[j])
    &&& forall|i: int| 0 <= i < table.len() ==> !is_reserved(#[trigger] table[i])
}

/// The table after `name` has been declared: it is added at the end, unless
/// it is a reserved word or the table holds it already.
pub open spec fn declared(table: Seq<Seq<u8>>, name: Seq<u8>) -> Seq<Seq<u8>> {
    if !is_reserved(name) && lookup(table, name).is_none() {
        table.push(name)
    } else {
        table
    }
}

/// The first place from `k` on at which `name` stands in `table`.
pub open spec fn lookup_from(table: Seq<Seq<u8>>, name: Seq<u8>, k: int) -> Option<int>
    decreases table.len() - k,
{
    if k < 0 || k >= table.len() {
        None
    } else if table[k] == name {
        Some(k)
    } else {
        lookup_from(table, name, k + 1)
    }
}

/// The place at which `name` stands in `table`.
pub open spec fn lookup(table: Seq<Seq<u8>>, name: Seq<u8>) -> Option<int> {
    lookup_from(table, name, 0)
}

/// The node is the name of a method declaration.
pub open spec fn names_a_method(nodes: Seq<SyntaxNode>, j: int) -> bool {
    nodes[j].field == FieldTag::Name && match parent(nodes, j) {
        Some(p) => nodes[p].kind == NodeKind::MethodDeclaration,
        None => false,
    }
}

/// The node that a pass takes from node `j`, if any. For the parameters,
/// `root` is the parameter list: a child of it that is a formal parameter
/// gives its name, a variadic one the name of its declarator. For the
/// declarations, a declarator directly under a local variable declaration
/// gives its name. For the references, an identifier gives itself, unless it
/// is the name of a method declaration.
pub open spec fn target(nodes: Seq<SyntaxNode>, pass: Pass, root: int, j: int) -> Option<int> {
    match pass {
        Pass::Parameters => {
            if nodes[j].depth == nodes[root].depth + 1 {
                if nodes[j].kind == NodeKind::FormalParameter {
                    child_by_field(nodes, j, FieldTag::Name)
                } else if nodes[j].kind == NodeKind::SpreadParameter {
                    match child_by_kind(nodes, j, NodeKind::VariableDeclarator) {
                        Some(d) => child_by_field(nodes, d, FieldTag::Name),
                        None => None,
                    }
                } else {
                    None
                }
            } else {
                None
            }
        },
        Pass::Declarations => {
            if nodes[j].kind == NodeKind::VariableDeclarator {
                match parent(nodes, j) {
                    Some(p) => {
                        if nodes[p].kind == NodeKind::LocalVariableDeclaration {
                            child_by_field(nodes, j, FieldTag::Name)
                        } else {
                            None
                        }
                    },
                    None => None,
                }
            } else {
                None
            }
        },
        Pass::References => {
            if nodes[j].kind == NodeKind::Identifier && !names_a_method(nodes, j) {
                Some(j)
            } else {
                None
            }
        },
    }
}

/// The span of the node holds at least one byte and lies inside the source.
pub open spec fn spanned(source: Seq<u8>, node: SyntaxNode) -> bool {
    node.start < node.end <= source.len()
}

/// The bytes of the source that the node spans.
pub open spec fn text_at(source: Seq<u8>, node: SyntaxNode) -> Seq<u8> {
    source.subrange(node.start as int, node.end as int)
}

/// The table after node `j` has been looked at: the name that the pass finds
/// there, if it holds at least one byte of the source, is declared.
pub open spec fn collect_step(
    source: Seq<u8>,
    nodes: Seq<SyntaxNode>,
    pass: Pass,
    root: int,
    j: int,
    table: Seq<Seq<u8>>,
) -> Seq<Seq<u8>> {
    match target(nodes, pass, root, j) {
        Some(n) => {
            if spanned(source, nodes[n]) {
                declared(table, text_at(source, nodes[n]))
            } else {
                table
            }
        },
        None => table,
    }
}

/// The table after the nodes `lo` to `hi - 1` have been walked in their order.
pub open spec fn collect(
    source: Seq<u8>,
    nodes: Seq<SyntaxNode>,
    pass: Pass,
    root: int,
    lo: int,
    hi: int,
    table: Seq<Seq<u8>>,
) -> Seq<Seq<u8>>
    decreases hi - lo,
{
    if hi <= lo {
        table
    } else {
        collect_step(
            source,
            nodes,
            pass,
            root,
            hi - 1,
            collect(source, nodes, pass, root, lo, hi - 1, table),
        )
    }
}

/// The edits after `node` has been offered for renaming: if its text stands
/// in the table and its span may be replaced, it gets the synthetic name of
/// its place in the table.
pub open spec fn rename_node(
    source: Seq<u8>,
    node: SyntaxNode,
    table: Seq<Seq<u8>>,
    edits: Seq<Edit>,
) -> Seq<Edit> {
    if spanned(source, node) && acceptable(source, edits, node.start as int, node.end as int) {
        match lookup(table, text_at(source, node)) {
            Some(k) => edits.push(
                Edit {
                    start: node.start as int,
                    end: node.end as int,
                    text: encode_utf8(local_name((k + 1) as nat)),
                },
            ),
            None => edits,
        }
    } else {
        edits
    }
}

/// The edits after node `j` has been looked at: the node that the pass finds
/// there, if any, is offered for renaming.
pub open spec fn rename_step(
    source: Seq<u8>,
    nodes: Seq<SyntaxNode>,
    pass: Pass,
    root: int,
    j: int,
    table: Seq<Seq<u8>>,
    edits: Seq<Edit>,
) -> Seq<Edit> {
    match target(nodes, pass, root, j) {
        Some(n) => rename_node(source, nodes[n], table, edits),
        None => edits,
    }
}

/// The edits after the nodes `lo` to `hi - 1` have been walked in their order.
pub open spec fn rename(
    source: Seq<u8>,
    nodes: Seq<SyntaxNode>,
    pass: Pass,
    root: int,
    lo: int,
    hi: int,
    table: Seq<Seq<u8>>,
    edits: Seq<Edit>,
) -> Seq<Edit>
    decreases hi - lo,
{
    if hi <= lo {
        edits
    } else {
        rename_step(
            source,
            nodes,
            pass,
            root,
            hi - 1,
            table,
            rename(source, nodes, pass, root, lo, hi - 1, table, edits),
        )
    }
}

/// The table of the method declared at node `m`: the names of its parameters
/// in their order, then the names of the local variables of its body in
/// theirs, each name once.
pub open spec fn scope_table(source: Seq<u8>, nodes: Seq<SyntaxNode>, m: int) -> Seq<Seq<u8>> {
    let of_parameters = match child_by_field(nodes, m, FieldTag::Parameters) {
        Some(ps) => collect(
            source,
            nodes,
            Pass::Parameters,
            ps,
            ps + 1,
            subtree_end(nodes, ps),
            Seq::empty(),
        ),
        None => Seq::empty(),
    };
    match child_by_field(nodes, m, FieldTag::Body) {
        Some(b) => collect(
            source,
            nodes,
            Pass::Declarations,
            b,
            b,
            subtree_end(nodes, b),
            of_parameters,
        ),
        None => of_parameters,
    }
}

/// The edits after the method declared at node `m` has been renamed: first
/// the names of its parameters, then the identifiers of its body.
pub open spec fn method_local_edits(
    source: Seq<u8>,
    nodes: Seq<SyntaxNode>,
    m: int,
    edits: Seq<Edit>,
) -> Seq<Edit> {
    let table = scope_table(source, nodes, m);
    let of_parameters = match child_by_field(nodes, m, FieldTag::Parameters) {
        Some(ps) => rename(
            source,
            nodes,
            Pass::Parameters,
            ps,
            ps + 1,
            subtree_end(nodes, ps),
            table,
            edits,
        ),
        None => edits,
    };
    match child_by_field(nodes, m, FieldTag::Body) {
        Some(b) => rename(
            source,
            nodes,
            Pass::References,
            b,
            b,
            subtree_end(nodes, b),
            table,
            of_parameters,
        ),
        None => of_parameters,
    }
}

/// The edits that the methods among the first `upto` nodes give rise to, each
/// method renamed with a table of its own.
pub open spec fn local_edits(source: Seq<u8>, nodes: Seq<SyntaxNode>, upto: int) -> Seq<Edit>
    decreases upto,
{
    if upto <= 0 {
        Seq::empty()
    } else {
        let before = local_edits(source, nodes, upto - 1);
        if upto - 1 < nodes.len() && nodes[upto - 1].kind == NodeKind::MethodDeclaration {
            method_local_edits(source, nodes, upto - 1, before)
        } else {
            before
        }
    }
}

/// What a lookup answers: the first place at which the name stands, and
/// nothing only if it stands nowhere.
pub proof fn lemma_lookup_from(table: Seq<Seq<u8>>, name: Seq<u8>, k: int)
    requires
        0 <= k,
    ensures
        match lookup_from(table, name, k) {
            Some(i) => k <= i < table.len() && table[i] == name,
            None => forall|i: int| k <= i < table.len() ==> table[i] != name,
        },
    decreases table.len() - k,
{
    if k < table.len() && table[k] != name {
        lemma_lookup_from(table, name, k + 1);
    }
}

/// Declaring a name keeps a table proper.
pub proof fn lemma_declared_proper(table: Seq<Seq<u8>>, name: Seq<u8>)
    requires
        proper_table(table),
    ensures
        proper_table(declared(table, name)),
{
    if !is_reserved(name) && lookup(table, name).is_none() {
        lemma_lookup_from(table, name, 0);
        let t = table.push(name);
        assert forall|a: int, b: int| 0 <= a < b < t.len() implies (#[trigger] t[a]) != (
        #[trigger] t[b]) by {
            assert(t[a] == table[a]);
            if b < table.len() {
                assert(t[b] == table[b]);
            }
        }
        assert forall|a: int| 0 <= a < t.len() implies !is_reserved(#[trigger] t[a]) by {
            if a < table.len() {
                assert(t[a] == table[a]);
            }
        }
    }
}

impl ScopeTable {
    /// Every name stands in the table once, and none is a reserved word.
    pub open spec fn wf(&self) -> bool {
        proper_table(self@)
    }

    /// An empty table.
    pub fn new() -> (table: ScopeTable)
        ensures
            table@ == Seq::<Seq<u8>>::empty(),
            table.wf(),
    {
        let table = ScopeTable { names: Vec::new() };
        assert(table@ =~= Seq::<Seq<u8>>::empty());
        table
    }

    /// The number of names.
    pub fn len(&self) -> (n: usize)
        ensures
            n == self@.len(),
    {
        self.names.len()
    }

    /// The place at which `name` stands in the table.
    pub fn lookup(&self, name: &[u8]) -> (place: Option<usize>)
        ensures
            match place {
                Some(k) => lookup(self@, name@) == Some(k as int) && k < self@.len(),
                None => lookup(self@, name@).is_none(),
            },
    {
        let mut k: usize = 0;
        while k < self.names.len()
            invariant
                k <= self.names@.len(),
                self@.len() == self.names@.len(),
                lookup_from(self@, name@, k as int) == lookup(self@, name@),
            decreases self.names@.len() - k,
        {
            assert(self@[k as int] == self.names@[k as int]@);
            if bytes_equal(self.names[k].as_slice(), name) {
                return Some(k);
            }
            k += 1;
        }
        None
    }

    /// Declares `name`: it is added at the end of the table, unless it is a
    /// reserved word or stands in the table already. Returns whether it was
    /// added.
    pub fn declare(&mut self, name: &[u8]) -> (added: bool)
        requires
            old(self).wf(),
        ensures
            final(self).wf(),
            final(self)@ == declared(old(self)@, name@),
            added == (final(self)@.len() == old(self)@.len() + 1),
    {
        proof {
            lemma_declared_proper(self@, name@);
        }
        if is_reserved_word(name) {
            return false;
        }
        if self.lookup(name).is_some() {
            return false;
        }
        self.names.push(slice_to_vec(name));
        assert(self@ =~= old(self)@.push(name@));
        true
    }
}

/// The node that a pass takes from node `j`.
pub fn find_target(tree: &SyntaxTree, pass: Pass, root: usize, j: usize) -> (found: Option<usize>)
    requires
        root < tree@.len(),
        j < tree@.len(),
    ensures
        match found {
            Some(n) => target(tree@, pass, root as int, j as int) == Some(n as int) && n
                < tree@.len(),
            None => target(tree@, pass, root as int, j as int).is_none(),
        },
{
    let node = tree.nodes[j];
    match pass {
        Pass::Parameters => {
            if node.depth > 0 && node.depth - 1 == tree.nodes[root].depth {
                if node.kind == NodeKind::FormalParameter {
                    tree.child_by_field(j, FieldTag::Name)
                } else if node.kind == NodeKind::SpreadParameter {
                    match tree.child_by_kind(j, NodeKind::VariableDeclarator) {
                        Some(d) => tree.child_by_field(d, FieldTag::Name),
                        None => None,
                    }
                } else {
                    None
                }
            } else {
                None
            }
        },
        Pass::Declarations => {
            if node.kind == NodeKind::VariableDeclarator {
                match tree.parent(j) {
                    Some(p) => {
                        if tree.nodes[p].kind == NodeKind::LocalVariableDeclaration {
                            tree.child_by_field(j, FieldTag::Name)
                        } else {
                            None
                        }
                    },
                    None => None,
                }
            } else {
                None
            }
        },
        Pass::References => {
            if node.kind == NodeKind::Identifier {
                let names_method = node.field == FieldTag::Name && match tree.parent(j) {
                    Some(p) => tree.nodes[p].kind == NodeKind::MethodDeclaration,
                    None => false,
                };
                if names_method {
                    None
                } else {
                    Some(j)
                }
            } else {
                None
            }
        },
    }
}

/// Looks at node `j` and declares the name that the pass finds there.
pub fn collect_at(
    source: &[u8],
    tree: &SyntaxTree,
    pass: Pass,
    root: usize,
    j: usize,
    table: &mut ScopeTable,
)
    requires
        root < tree@.len(),
        j < tree@.len(),
        old(table).wf(),
    ensures
        final(table).wf(),
        final(table)@ == collect_step(source@, tree@, pass, root as int, j as int, old(table)@),
{
    match find_target(tree, pass, root, j) {
        Some(n) => {
            let node = tree.nodes[n];
            if node.start < node.end && node.end <= source.len() {
                table.declare(slice_subrange(source, node.start, node.end));
            }
        },
        None => {},
    }
}

/// Walks the nodes `lo` to `hi - 1` and declares the names that the pass
/// finds.
pub fn collect_names(
    source: &[u8],
    tree: &SyntaxTree,
    pass: Pass,
    root: usize,
    lo: usize,
    hi: usize,
    table: &mut ScopeTable,
)
    requires
        root < tree@.len(),
        lo <= hi <= tree@.len(),
        old(table).wf(),
    ensures
        final(table).wf(),
        final(table)@ == collect(
            source@,
            tree@,
            pass,
            root as int,
            lo as int,
            hi as int,
            old(table)@,
        ),
{
    let mut j: usize = lo;
    while j < hi
        invariant
            root < tree@.len(),
            lo <= j <= hi <= tree@.len(),
            table.wf(),
            table@ == collect(source@, tree@, pass, root as int, lo as int, j as int, old(table)@),
        decreases hi - j,
    {
        collect_at(source, tree, pass, root, j, table);
        j += 1;
    }
}

/// Offers `node` for renaming.
pub fn rename_one(rw: &mut Rewrite, node: SyntaxNode, table: &ScopeTable)
    requires
        old(rw).wf(),
    ensures
        final(rw).wf(),
        final(rw).source() == old(rw).source(),
        final(rw).taken() == rename_node(old(rw).source(), node, table@, old(rw).taken()),
{
    if !(node.start < node.end && node.end <= rw.bytes().len()) {
        return ;
    }
    if !rw.accepts(node.start, node.end) {
        return ;
    }
    match table.lookup(slice_subrange(rw.bytes(), node.start, node.end)) {
        Some(k) => {
            let size: usize = table.len();
            assert(k < size);
            proof {
                lemma_synthetic_plain((k + 1) as nat);
            }
            rw.take(node.start, node.end, make_local_name(k + 1));
        },
        None => {},
    }
}

/// Looks at node `j` and offers what the pass finds there for renaming.
pub fn rename_at(
    rw: &mut Rewrite,
    tree: &SyntaxTree,
    pass: Pass,
    root: usize,
    j: usize,
    table: &ScopeTable,
)
    requires
        old(rw).wf(),
        root < tree@.len(),
        j < tree@.len(),
    ensures
        final(rw).wf(),
        final(rw).source() == old(rw).source(),
        final(rw).taken() == rename_step(
            old(rw).source(),
            tree@,
            pass,
            root as int,
            j as int,
            table@,
            old(rw).taken(),
        ),
{
    match find_target(tree, pass, root, j) {
        Some(n) => {
            rename_one(rw, tree.nodes[n], table);
        },
        None => {},
    }
}

/// Walks the nodes `lo` to `hi - 1` and replaces what the pass finds and the
/// table holds.
pub fn rename_found(
    rw: &mut Rewrite,
    tree: &SyntaxTree,
    pass: Pass,
    root: usize,
    lo: usize,
    hi: usize,
    table: &ScopeTable,
)
    requires
        old(rw).wf(),
        root < tree@.len(),
        lo <= hi <= tree@.len(),
    ensures
        final(rw).wf(),
        final(rw).source() == old(rw).source(),
        final(rw).taken() == rename(
            old(rw).source(),
            tree@,
            pass,
            root as int,
            lo as int,
            hi as int,
            table@,
            old(rw).taken(),
        ),
{
    let mut j: usize = lo;
    while j < hi
        invariant
            rw.wf(),
            rw.source() == old(rw).source(),
            root < tree@.len(),
            lo <= j <= hi <= tree@.len(),
            rw.taken() == rename(
                rw.source(),
                tree@,
                pass,
                root as int,
                lo as int,
                j as int,
                table@,
                old(rw).taken(),
            ),
        decreases hi - j,
    {
        rename_at(rw, tree, pass, root, j, table);
        j += 1;
    }
}

/// The table of the method declared at node `m`.
pub fn build_scope_table(source: &[u8], tree: &SyntaxTree, m: usize) -> (table: ScopeTable)
    requires
        m < tree@.len(),
    ensures
        table.wf(),
        table@ == scope_table(source@, tree@, m as int),
{
    let mut table = ScopeTable::new();
    match tree.child_by_field(m, FieldTag::Parameters) {
        Some(ps) => {
            let end: usize = tree.subtree_end(ps);
            collect_names(source, tree, Pass::Parameters, ps, ps + 1, end, &mut table);
        },
        None => {},
    }
    match tree.child_by_field(m, FieldTag::Body) {
        Some(b) => {
            let end: usize = tree.subtree_end(b);
            collect_names(source, tree, Pass::Declarations, b, b, end, &mut table);
        },
        None => {},
    }
    table
}

/// Renames the parameters and locals of the method declared at node `m`.
pub fn rename_method_locals(rw: &mut Rewrite, tree: &SyntaxTree, m: usize)
    requires
        old(rw).wf(),
        m < tree@.len(),
    ensures
        final(rw).wf(),
        final(rw).source() == old(rw).source(),
        final(rw).taken() == method_local_edits(
            old(rw).source(),
            tree@,
            m as int,
            old(rw).taken(),
        ),
{
    let table = build_scope_table(rw.bytes(), tree, m);
    match tree.child_by_field(m, FieldTag::Parameters) {
        Some(ps) => {
            let end: usize = tree.subtree_end(ps);
            rename_found(rw, tree, Pass::Parameters, ps, ps + 1, end, &table);
        },
        None => {},
    }
    match tree.child_by_field(m, FieldTag::Body) {
        Some(b) => {
            let end: usize = tree.subtree_end(b);
            rename_found(rw, tree, Pass::References, b, b, end, &table);
        },
        None => {},
    }
}

/// Renames the parameters and locals of every method of the tree, each
/// method with a table of its own.
pub fn take_locals(rw: &mut Rewrite, tree: &SyntaxTree)
    requires
        old(rw).wf(),
        old(rw).taken().len() == 0,
    ensures
        final(rw).wf(),
        final(rw).source() == old(rw).source(),
        final(rw).taken() == local_edits(old(rw).source(), tree@, tree@.len() as int),
{
    let n: usize = tree.len();
    let mut i: usize = 0;
    assert(rw.taken() =~= Seq::<Edit>::empty());
    while i < n
        invariant
            n == tree@.len(),
            i <= n,
            rw.wf(),
            rw.source() == old(rw).source(),
            rw.taken() == local_edits(rw.source(), tree@, i as int),
        decreases n - i,
    {
        if tree.nodes[i].kind == NodeKind::MethodDeclaration {
            rename_method_locals(rw, tree, i);
        }
        i += 1;
    }
}

/// What the local-identifier renamer makes of a source with the given tree.
pub open spec fn local_pass(source: Seq<u8>, nodes: Seq<SyntaxNode>) -> Seq<u8> {
    patched(source, local_edits(source, nodes, nodes.len() as int))
}

/// Renames the parameters and local variables of every method of `source`,
/// whose syntax tree is `tree`: within one method, the first name declared
/// becomes `var_1`, the next new one `var_2` and so on, and every identifier
/// of the method's body that bears a declared name is replaced with it. The
/// numbers start again with each method. Strings, character literals and
/// comments are kept byte for byte.
pub fn rename_locals(source: &str, tree: &SyntaxTree) -> (result: String)
    ensures
        encode_utf8(result@) == local_pass(encode_utf8(source@), tree@),
        protected_text_kept(encode_utf8(source@), encode_utf8(result@)),
{
    let mut rw = Rewrite::new(source);
    take_locals(&mut rw, tree);
    rw.finish()
}

} // verus!
