//! The method-name renamer: every method declaration gets a synthetic name,
//! numbered in the order in which the declarations stand in the source.

use vstd::prelude::*;
use vstd::utf8::*;
use crate::laws::protected_text_kept;
use crate::names::{lemma_synthetic_plain, make_method_name, method_name};
use crate::patch::{patched, Edit};
use crate::rewrite::{acceptable, clean, lemma_take_keeps_clean, Rewrite};
use crate::syntax::{child_by_field, FieldTag, NodeKind, SyntaxNode, SyntaxTree};

verus! {

/// The node that holds the name of the method declared at node `i`, if node
/// `i` declares a method and has a name.
pub open spec fn method_name_node(nodes: Seq<SyntaxNode>, i: int) -> Option<int> {
    if 0 <= i < nodes.len() && nodes[i].kind == NodeKind::MethodDeclaration {
        child_by_field(nodes, i, FieldTag::Name)
    } else {
        None
    }
}

/// The edits that the first `upto` nodes give rise to: for each method
/// declaration whose name may be replaced, its name span and the next
/// synthetic name. The numbers start at 1 and rise by one with each edit.
pub open spec fn method_edits(source: Seq<u8>, nodes: Seq<SyntaxNode>, upto: int) -> Seq<Edit>
    decreases upto,
{
    if upto <= 0 {
        Seq::empty()
    } else {
        let before = method_edits(source, nodes, upto - 1);
        match method_name_node(nodes, upto - 1) {
            Some(n) => {
                if acceptable(source, before, nodes[n].start as int, nodes[n].end as int) {
                    before.push(
                        Edit {
                            start: nodes[n].start as int,
                            end: nodes[n].end as int,
                            text: encode_utf8(method_name((before.len() + 1) as nat)),
                        },
                    )
                } else {
                    before
                }
            },
            None => before,
        }
    }
}

/// The edits of the method renamer are clean, there is at most one for each
/// node, and the `k`-th of them carries the `k`-th synthetic name.
pub proof fn lemma_method_edits(source: Seq<u8>, nodes: Seq<SyntaxNode>, upto: int)
    ensures
        clean(source, method_edits(source, nodes, upto)),
        method_edits(source, nodes, upto).len() <= if upto < 0 { 0 } else { upto },
        forall|k: int|
            0 <= k < method_edits(source, nodes, upto).len() ==> (#[trigger] method_edits(
                source,
                nodes,
                upto,
            )[k]).text == encode_utf8(method_name((k + 1) as nat)),
    decreases upto,
{
    broadcast use encode_utf8_valid_utf8;

    if upto > 0 {
        let before = method_edits(source, nodes, upto - 1);
        lemma_method_edits(source, nodes, upto - 1);
        match method_name_node(nodes, upto - 1) {
            Some(n) => {
                if acceptable(source, before, nodes[n].start as int, nodes[n].end as int) {
                    let e = Edit {
                        start: nodes[n].start as int,
                        end: nodes[n].end as int,
                        text: encode_utf8(method_name((before.len() + 1) as nat)),
                    };
                    lemma_synthetic_plain((before.len() + 1) as nat);
                    lemma_take_keeps_clean(source, before, e);
                    let all = before.push(e);
                    assert forall|k: int| 0 <= k < all.len() implies (#[trigger] all[k]).text
                        == encode_utf8(method_name((k + 1) as nat)) by {
                        if k < before.len() {
                            assert(all[k] == before[k]);
                        }
                    }
                }
            },
            None => {},
        }
    }
}

/// Takes the name of every method declaration of the tree for its synthetic
/// name.
pub fn take_method_names(rw: &mut Rewrite, tree: &SyntaxTree)
    requires
        old(rw).wf(),
        old(rw).taken().len() == 0,
    ensures
        final(rw).wf(),
        final(rw).source() == old(rw).source(),
        final(rw).taken() == method_edits(old(rw).source(), tree@, tree@.len() as int),
{
    let n: usize = tree.len();
    let mut i: usize = 0;
    assert(rw.taken() =~= Seq::<Edit>::empty());
    while i < n
        invariant
            n == tree@.len(),
            i <= n,
            rw.wf(),
            rw.source() == old(rw).source(),
            rw.taken().len() <= i,
            rw.taken() == method_edits(rw.source(), tree@, i as int),
        decreases n - i,
    {
        if tree.nodes[i].kind == NodeKind::MethodDeclaration {
            match tree.child_by_field(i, FieldTag::Name) {
                Some(name) => {
                    let start: usize = tree.nodes[name].start;
                    let end: usize = tree.nodes[name].end;
                    if rw.accepts(start, end) {
                        let number: usize = rw.len() + 1;
                        proof {
                            lemma_synthetic_plain(number as nat);
                        }
                        rw.take(start, end, make_method_name(number));
                    }
                },
                None => {},
            }
        }
        i += 1;
    }
}

/// What the method renamer makes of a source with the given tree.
pub open spec fn method_pass(source: Seq<u8>, nodes: Seq<SyntaxNode>) -> Seq<u8> {
    patched(source, method_edits(source, nodes, nodes.len() as int))
}

/// Renames the methods of `source`, whose syntax tree is `tree`: the name of
/// each method declaration is replaced by `func_1`, `func_2` and so on, in
/// the order of the declarations. A declaration without a name gets none, and
/// so does one whose name span may not be replaced. Strings, character
/// literals and comments are kept byte for byte.
pub fn rename_methods(source: &str, tree: &SyntaxTree) -> (result: String)
    ensures
        encode_utf8(result@) == method_pass(encode_utf8(source@), tree@),
        protected_text_kept(encode_utf8(source@), encode_utf8(result@)),
{
    let mut rw = Rewrite::new(source);
    take_method_names(&mut rw, tree);
    rw.finish()
}

} // verus!
