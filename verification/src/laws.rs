//! What holds of the two renamers, whatever the tree they are given.

use vstd::prelude::*;
use vstd::utf8::*;
use crate::keywords::{is_reserved, lemma_synthetic_not_reserved};
use crate::locals::{
    collect,
    collect_step,
    lemma_declared_proper,
    lemma_lookup_from,
    local_edits,
    lookup,
    method_local_edits,
    proper_table,
    rename,
    rename_node,
    scope_table,
    spanned,
    target,
    text_at,
    Pass,
};
use crate::methods::{lemma_method_edits, method_edits};
use crate::names::{lemma_synthetic_plain, local_name, method_name};
use crate::patch::{patched, Edit};
use crate::patch::sort_desc;
use crate::patch_laws::{
    lemma_apart_is_admitted,
    lemma_patched_len_apart,
    lemma_patched_preserves,
    lemma_patched_valid,
    lemma_range_preserved,
    lemma_sort_desc_keeps,
    on_boundaries,
    shift_before,
    total_growth,
};
use crate::protect_laws::{
    carried,
    lemma_carried_place,
    lemma_edits_move_spans,
    lemma_same_shift,
    plain_edits,
};
use crate::protect::{
    lemma_scan_in_bounds,
    plain_run,
    plain_text,
    protected_spans,
    touches,
    Lexical,
    Span,
};
use crate::rewrite::{acceptable, clean, lemma_take_keeps_clean};
use crate::syntax::{child_by_field, subtree_end, FieldTag, NodeKind, SyntaxNode};

verus! {

/// No new text is a reserved word.
pub open spec fn no_reserved_text(edits: Seq<Edit>) -> bool {
    forall|k: int| 0 <= k < edits.len() ==> !is_reserved((#[trigger] edits[k]).text)
}

/// `longer` begins with `shorter`.
pub open spec fn extends(longer: Seq<Edit>, shorter: Seq<Edit>) -> bool {
    &&& shorter.len() <= longer.len()
    &&& forall|k: int| 0 <= k < shorter.len() ==> longer[k] == shorter[k]
}

/// From place `from` on, every edit replaces a name of the table by the
/// synthetic name of its place in the table, counted from 1.
pub open spec fn numbered_by(
    source: Seq<u8>,
    table: Seq<Seq<u8>>,
    edits: Seq<Edit>,
    from: int,
) -> bool {
    forall|i: int|
        0 <= i && from <= i < edits.len() ==> match lookup(
            table,
            source.subrange((#[trigger] edits[i]).start, edits[i].end),
        ) {
            Some(k) => 0 <= k < table.len() && edits[i].text == encode_utf8(
                local_name((k + 1) as nat),
            ),
            None => false,
        }
}

proof fn lemma_collect_step_proper(
    source: Seq<u8>,
    nodes: Seq<SyntaxNode>,
    pass: Pass,
    root: int,
    j: int,
    table: Seq<Seq<u8>>,
)
    requires
        proper_table(table),
    ensures
        proper_table(collect_step(source, nodes, pass, root, j, table)),
{
    match target(nodes, pass, root, j) {
        Some(n) => {
            lemma_declared_proper(table, text_at(source, nodes[n]));
        },
        None => {},
    }
}

proof fn lemma_collect_proper(
    source: Seq<u8>,
    nodes: Seq<SyntaxNode>,
    pass: Pass,
    root: int,
    lo: int,
    hi: int,
    table: Seq<Seq<u8>>,
)
    requires
        proper_table(table),
    ensures
        proper_table(collect(source, nodes, pass, root, lo, hi, table)),
    decreases hi - lo,
{
    if hi > lo {
        lemma_collect_proper(source, nodes, pass, root, lo, hi - 1, table);
        lemma_collect_step_proper(
            source,
            nodes,
            pass,
            root,
            hi - 1,
            collect(source, nodes, pass, root, lo, hi - 1, table),
        );
    }
}

/// The table of a method holds each name once, and no reserved word: a name
/// has at most one synthetic name within a method, that of its first
/// declaration.
pub proof fn lemma_scope_table_proper(source: Seq<u8>, nodes: Seq<SyntaxNode>, m: int)
    ensures
        proper_table(scope_table(source, nodes, m)),
{
    let empty = Seq::<Seq<u8>>::empty();
    assert(proper_table(empty));
    let of_parameters = match child_by_field(nodes, m, FieldTag::Parameters) {
        Some(ps) => collect(
            source,
            nodes,
            Pass::Parameters,
            ps,
            ps + 1,
            subtree_end(nodes, ps),
            empty,
        ),
        None => empty,
    };
    match child_by_field(nodes, m, FieldTag::Parameters) {
        Some(ps) => {
            lemma_collect_proper(
                source,
                nodes,
                Pass::Parameters,
                ps,
                ps + 1,
                subtree_end(nodes, ps),
                empty,
            );
        },
        None => {},
    }
    match child_by_field(nodes, m, FieldTag::Body) {
        Some(b) => {
            lemma_collect_proper(
                source,
                nodes,
                Pass::Declarations,
                b,
                b,
                subtree_end(nodes, b),
                of_parameters,
            );
        },
        None => {},
    }
}

proof fn lemma_rename_node(
    source: Seq<u8>,
    node: SyntaxNode,
    table: Seq<Seq<u8>>,
    edits: Seq<Edit>,
    from: int,
)
    requires
        clean(source, edits),
        no_reserved_text(edits),
        numbered_by(source, table, edits, from),
    ensures
        clean(source, rename_node(source, node, table, edits)),
        no_reserved_text(rename_node(source, node, table, edits)),
        numbered_by(source, table, rename_node(source, node, table, edits), from),
        extends(rename_node(source, node, table, edits), edits),
{
    broadcast use encode_utf8_valid_utf8;

    if spanned(source, node) && acceptable(source, edits, node.start as int, node.end as int) {
        match lookup(table, text_at(source, node)) {
            Some(k) => {
                lemma_lookup_from(table, text_at(source, node), 0);
                let e = Edit {
                    start: node.start as int,
                    end: node.end as int,
                    text: encode_utf8(local_name((k + 1) as nat)),
                };
                let all = edits.push(e);
                lemma_synthetic_plain((k + 1) as nat);
                lemma_take_keeps_clean(source, edits, e);
                lemma_synthetic_not_reserved((k + 1) as nat);
                assert forall|i: int| 0 <= i < all.len() implies !is_reserved(
                    (#[trigger] all[i]).text,
                ) by {
                    if i < edits.len() {
                        assert(all[i] == edits[i]);
                    }
                }
                assert forall|i: int| 0 <= i && from <= i < all.len() implies match lookup(
                    table,
                    source.subrange((#[trigger] all[i]).start, all[i].end),
                ) {
                    Some(k) => 0 <= k < table.len() && all[i].text == encode_utf8(
                        local_name((k + 1) as nat),
                    ),
                    None => false,
                } by {
                    if i < edits.len() {
                        assert(all[i] == edits[i]);
                    }
                }
            },
            None => {},
        }
    }
}

proof fn lemma_rename(
    source: Seq<u8>,
    nodes: Seq<SyntaxNode>,
    pass: Pass,
    root: int,
    lo: int,
    hi: int,
    table: Seq<Seq<u8>>,
    edits: Seq<Edit>,
    from: int,
)
    requires
        clean(source, edits),
        no_reserved_text(edits),
        numbered_by(source, table, edits, from),
    ensures
        clean(source, rename(source, nodes, pass, root, lo, hi, table, edits)),
        no_reserved_text(rename(source, nodes, pass, root, lo, hi, table, edits)),
        numbered_by(source, table, rename(source, nodes, pass, root, lo, hi, table, edits), from),
        extends(rename(source, nodes, pass, root, lo, hi, table, edits), edits),
    decreases hi - lo,
{
    if hi > lo {
        let before = rename(source, nodes, pass, root, lo, hi - 1, table, edits);
        lemma_rename(source, nodes, pass, root, lo, hi - 1, table, edits, from);
        match target(nodes, pass, root, hi - 1) {
            Some(n) => {
                lemma_rename_node(source, nodes[n], table, before, from);
            },
            None => {},
        }
    }
}

/// Per-method numbering: every edit that the renaming of the method at node
/// `m` adds replaces a name of that method's own table by the synthetic name
/// of its place in that table. The numbers of a method start at 1 and do not
/// depend on any other method.
pub proof fn lemma_method_local_edits(
    source: Seq<u8>,
    nodes: Seq<SyntaxNode>,
    m: int,
    edits: Seq<Edit>,
)
    requires
        clean(source, edits),
        no_reserved_text(edits),
    ensures
        clean(source, method_local_edits(source, nodes, m, edits)),
        no_reserved_text(method_local_edits(source, nodes, m, edits)),
        extends(method_local_edits(source, nodes, m, edits), edits),
        numbered_by(
            source,
            scope_table(source, nodes, m),
            method_local_edits(source, nodes, m, edits),
            edits.len() as int,
        ),
{
    let table = scope_table(source, nodes, m);
    let from = edits.len() as int;
    let of_parameters = match child_by_field(nodes, m, FieldTag::Parameters) {
        Some(ps) => rename(
            source,
            nodes,
            Pass::Parameters,
            ps,
            ps + 1,
            subtree_end(nodes, ps),
            table,
            edits,
        ),
        None => edits,
    };
    match child_by_field(nodes, m, FieldTag::Parameters) {
        Some(ps) => {
            lemma_rename(
                source,
                nodes,
                Pass::Parameters,
                ps,
                ps + 1,
                subtree_end(nodes, ps),
                table,
                edits,
                from,
            );
        },
        None => {},
    }
    match child_by_field(nodes, m, FieldTag::Body) {
        Some(b) => {
            lemma_rename(
                source,
                nodes,
                Pass::References,
                b,
                b,
                subtree_end(nodes, b),
                table,
                of_parameters,
                from,
            );
        },
        None => {},
    }
}

/// The edits of the local-identifier renamer are clean, and no new text is
/// a reserved word.
pub proof fn lemma_local_edits(source: Seq<u8>, nodes: Seq<SyntaxNode>, upto: int)
    ensures
        clean(source, local_edits(source, nodes, upto)),
        no_reserved_text(local_edits(source, nodes, upto)),
    decreases upto,
{
    if upto > 0 {
        let before = local_edits(source, nodes, upto - 1);
        lemma_local_edits(source, nodes, upto - 1);
        if upto - 1 < nodes.len() && nodes[upto - 1].kind == NodeKind::MethodDeclaration {
            lemma_method_local_edits(source, nodes, upto - 1, before);
        }
    }
}

/// Reserved words are left alone: neither renamer replaces a span that holds
/// a reserved word, and neither puts a reserved word in the place of a name.
pub proof fn lemma_reserved_words_untouched(source: Seq<u8>, nodes: Seq<SyntaxNode>, k: int)
    ensures
        0 <= k < method_edits(source, nodes, nodes.len() as int).len() ==> {
            let e = method_edits(source, nodes, nodes.len() as int)[k];
            !is_reserved(source.subrange(e.start, e.end)) && !is_reserved(e.text)
        },
        0 <= k < local_edits(source, nodes, nodes.len() as int).len() ==> {
            let e = local_edits(source, nodes, nodes.len() as int)[k];
            !is_reserved(source.subrange(e.start, e.end)) && !is_reserved(e.text)
        },
{
    lemma_method_edits(source, nodes, nodes.len() as int);
    lemma_local_edits(source, nodes, nodes.len() as int);
    let ms = method_edits(source, nodes, nodes.len() as int);
    if 0 <= k < ms.len() {
        assert(ms[k].text == encode_utf8(method_name((k + 1) as nat)));
        lemma_synthetic_not_reserved((k + 1) as nat);
    }
}

/// Clean edits leave the strings, character literals and comments of the
/// source as they are: the bytes of every protected span stand in the output,
/// moved by the growth of the edits before the span.
pub proof fn lemma_protected_text_survives(source: Seq<u8>, edits: Seq<Edit>, k: int)
    requires
        clean(source, edits),
        0 <= k < protected_spans(source).len(),
    ensures
        ({
            let span = protected_spans(source)[k];
            let shift = shift_before(edits, span.start);
            &&& 0 <= span.start + shift
            &&& span.end + shift <= patched(source, edits).len()
            &&& patched(source, edits).subrange(span.start + shift, span.end + shift)
                == source.subrange(span.start, span.end)
        }),
{
    let span = protected_spans(source)[k];
    lemma_scan_in_bounds(source, 0, Lexical::Code, 0);
    assert forall|i: int| 0 <= i < edits.len() implies (#[trigger] edits[i]).end <= span.start
        || span.end <= edits[i].start by {
        assert(!touches(protected_spans(source), edits[i].start, edits[i].end));
    }
    lemma_patched_preserves(source, edits, span.start, span.end);
}

/// Clean edits turn a source that is valid UTF-8 into valid UTF-8, as long as
/// the source plus the growth of all the edits.
pub proof fn lemma_clean_output(source: Seq<u8>, edits: Seq<Edit>)
    requires
        valid_utf8(source),
        clean(source, edits),
    ensures
        valid_utf8(patched(source, edits)),
        patched(source, edits).len() == source.len() + total_growth(edits),
{
    assert(on_boundaries(source, edits));
    lemma_patched_valid(source, edits);
    lemma_patched_len_apart(source, edits);
}

/// The bytes that `span` holds in `source` stand in `out`, `by` bytes further on.
pub open spec fn kept_at(source: Seq<u8>, out: Seq<u8>, span: Span, by: int) -> bool {
    &&& 0 <= span.start + by
    &&& span.end + by <= out.len()
    &&& out.subrange(span.start + by, span.end + by) == source.subrange(span.start, span.end)
}

/// The bytes that `span` holds in `source` stand somewhere in `out`.
pub open spec fn span_kept(source: Seq<u8>, out: Seq<u8>, span: Span) -> bool {
    exists|by: int| kept_at(source, out, span, by)
}

/// Every string, character literal and comment of `source` stands in `out`
/// byte for byte.
pub open spec fn protected_text_kept(source: Seq<u8>, out: Seq<u8>) -> bool {
    forall|k: int|
        0 <= k < protected_spans(source).len() ==> span_kept(
            source,
            out,
            #[trigger] protected_spans(source)[k],
        )
}

/// A source keeps its own protected text.
pub proof fn lemma_unchanged_keeps(source: Seq<u8>)
    ensures
        protected_text_kept(source, source),
{
    lemma_scan_in_bounds(source, 0, Lexical::Code, 0);
    assert forall|k: int| 0 <= k < protected_spans(source).len() implies span_kept(
        source,
        source,
        #[trigger] protected_spans(source)[k],
    ) by {
        assert(kept_at(source, source, protected_spans(source)[k], 0));
    }
}

/// No protected text is changed: what clean edits make of a source keeps
/// every string, character literal and comment of it.
pub proof fn lemma_clean_keeps_protected(source: Seq<u8>, edits: Seq<Edit>)
    requires
        clean(source, edits),
    ensures
        protected_text_kept(source, patched(source, edits)),
{
    assert forall|k: int| 0 <= k < protected_spans(source).len() implies span_kept(
        source,
        patched(source, edits),
        #[trigger] protected_spans(source)[k],
    ) by {
        lemma_protected_text_survives(source, edits, k);
        let span = protected_spans(source)[k];
        assert(kept_at(source, patched(source, edits), span, shift_before(edits, span.start)));
    }
}

/// Clean edits leave the protected spans of a source what they were: what
/// keeps the strings, character literals and comments of the text that the
/// edits have made keeps those of the source. So two renamers, one after the
/// other, keep what the first was given.
pub proof fn lemma_kept_through(source: Seq<u8>, edits: Seq<Edit>, out: Seq<u8>)
    requires
        clean(source, edits),
        protected_text_kept(patched(source, edits), out),
    ensures
        protected_text_kept(source, out),
{
    let len = source.len() as int;
    let mid = patched(source, edits);
    let s = sort_desc(edits);
    let spans = protected_spans(source);
    lemma_apart_is_admitted(source, edits);
    lemma_sort_desc_keeps(edits, 0);
    lemma_scan_in_bounds(source, 0, Lexical::Code, 0);
    assert(plain_edits(source, s)) by {
        assert forall|k: int| 0 <= k < s.len() implies {
            &&& (#[trigger] s[k]).start < s[k].end
            &&& plain_run(source, s[k].start, s[k].end)
            &&& plain_text(s[k].text)
        } by {
            assert(edits.contains(s[k]));
            let i = choose|i: int| 0 <= i < edits.len() && edits[i] == s[k];
            assert(edits[i].start < edits[i].end);
        }
    }
    lemma_edits_move_spans(source, s);
    assert(protected_spans(mid) == carried(s, spans));
    assert forall|k: int| 0 <= k < spans.len() implies span_kept(source, out, #[trigger] spans[k]) by {
        let span = spans[k];
        assert forall|j: int| 0 <= j < s.len() implies (#[trigger] s[j]).start < s[j].end && (
        s[j].end <= span.start || span.end <= s[j].start) by {
            assert(edits.contains(s[j]));
            let i = choose|i: int| 0 <= i < edits.len() && edits[i] == s[j];
            assert(!touches(spans, edits[i].start, edits[i].end));
            assert(edits[i].start < edits[i].end);
        }
        assert forall|j: int| 0 <= j < s.len() implies (#[trigger] s[j]).end <= span.start
            || span.start <= s[j].start by {}
        assert forall|j: int| 0 <= j < s.len() implies (#[trigger] s[j]).end <= span.end
            || span.end <= s[j].start by {}
        lemma_carried_place(s, len, span.start);
        lemma_carried_place(s, len, span.end);
        lemma_same_shift(s, span.start, span.end);
        lemma_range_preserved(source, s, span.start, span.end);
        let by = shift_before(s, span.start);
        let there = protected_spans(mid)[k];
        assert(there == Span { start: span.start + by, end: span.end + by });
        assert(span_kept(mid, out, there));
        let further = choose|further: int| kept_at(mid, out, there, further);
        assert(kept_at(source, out, span, by + further));
    }
}

} // verus!
