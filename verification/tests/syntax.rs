use java_dataset_converter_llm::locals::{
    build_scope_table, find_target, rename_locals, Pass, ScopeTable,
};
use java_dataset_converter_llm::methods::rename_methods;
use java_dataset_converter_llm::parser::{field_tag, node_kind, parse_java};
use java_dataset_converter_llm::rewrite::Rewrite;
use java_dataset_converter_llm::syntax::{FieldTag, NodeKind, SyntaxNode, SyntaxTree};

fn node(kind: NodeKind, field: FieldTag, start: usize, end: usize, depth: usize) -> SyntaxNode {
    SyntaxNode { kind, field, start, end, depth }
}

const SOURCE: &str = "class T { void a(int p) { int x = p; } }";

/// The tree of `SOURCE`, written out by hand.
fn sample_tree() -> SyntaxTree {
    SyntaxTree::new(vec![
        node(NodeKind::Other, FieldTag::Other, 0, 40, 0),
        node(NodeKind::Other, FieldTag::Other, 0, 40, 1),
        node(NodeKind::Identifier, FieldTag::Name, 6, 7, 2),
        node(NodeKind::Other, FieldTag::Body, 8, 40, 2),
        node(NodeKind::MethodDeclaration, FieldTag::Other, 10, 38, 3),
        node(NodeKind::Other, FieldTag::Other, 10, 14, 4),
        node(NodeKind::Identifier, FieldTag::Name, 15, 16, 4),
        node(NodeKind::Other, FieldTag::Parameters, 16, 23, 4),
        node(NodeKind::FormalParameter, FieldTag::Other, 17, 22, 5),
        node(NodeKind::Other, FieldTag::Other, 17, 20, 6),
        node(NodeKind::Identifier, FieldTag::Name, 21, 22, 6),
        node(NodeKind::Other, FieldTag::Body, 24, 38, 4),
        node(NodeKind::LocalVariableDeclaration, FieldTag::Other, 26, 36, 5),
        node(NodeKind::Other, FieldTag::Other, 26, 29, 6),
        node(NodeKind::VariableDeclarator, FieldTag::Other, 30, 35, 6),
        node(NodeKind::Identifier, FieldTag::Name, 30, 31, 7),
        node(NodeKind::Identifier, FieldTag::Other, 34, 35, 7),
    ])
}

/// A class with methods only: each method is its name span and nothing else.
fn methods_only(names: &[(usize, usize)]) -> SyntaxTree {
    let mut nodes = vec![node(NodeKind::Other, FieldTag::Other, 0, 0, 0)];
    for &(start, end) in names {
        nodes.push(node(NodeKind::MethodDeclaration, FieldTag::Other, start, end, 1));
        nodes.push(node(NodeKind::Identifier, FieldTag::Name, start, end, 2));
    }
    SyntaxTree::new(nodes)
}

#[test]
fn subtree_ends_before_the_next_node_that_is_not_deeper() {
    let tree = sample_tree();
    assert_eq!(tree.len(), 17);
    assert_eq!(tree.subtree_end(0), 17);
    assert_eq!(tree.subtree_end(2), 3);
    assert_eq!(tree.subtree_end(4), 17);
    assert_eq!(tree.subtree_end(7), 11);
    assert_eq!(tree.subtree_end(8), 11);
    assert_eq!(tree.subtree_end(12), 17);
    assert_eq!(tree.subtree_end(16), 17);
}

#[test]
fn child_is_found_by_its_field() {
    let tree = sample_tree();
    assert_eq!(tree.child_by_field(4, FieldTag::Name), Some(6));
    assert_eq!(tree.child_by_field(4, FieldTag::Parameters), Some(7));
    assert_eq!(tree.child_by_field(4, FieldTag::Body), Some(11));
    assert_eq!(tree.child_by_field(8, FieldTag::Name), Some(10));
    assert_eq!(tree.child_by_field(1, FieldTag::Name), Some(2));
    // a grandchild is no child
    assert_eq!(tree.child_by_field(12, FieldTag::Name), None);
    assert_eq!(tree.child_by_field(7, FieldTag::Name), None);
    assert_eq!(tree.child_by_field(16, FieldTag::Name), None);
}

#[test]
fn child_is_found_by_its_kind() {
    let tree = sample_tree();
    assert_eq!(tree.child_by_kind(12, NodeKind::VariableDeclarator), Some(14));
    assert_eq!(tree.child_by_kind(7, NodeKind::FormalParameter), Some(8));
    assert_eq!(tree.child_by_kind(4, NodeKind::Identifier), Some(6));
    assert_eq!(tree.child_by_kind(4, NodeKind::FormalParameter), None);
    assert_eq!(tree.child_by_kind(0, NodeKind::MethodDeclaration), None);
}

#[test]
fn parent_is_the_nearest_shallower_node_before() {
    let tree = sample_tree();
    assert_eq!(tree.parent(0), None);
    assert_eq!(tree.parent(1), Some(0));
    assert_eq!(tree.parent(6), Some(4));
    assert_eq!(tree.parent(11), Some(4));
    assert_eq!(tree.parent(14), Some(12));
    assert_eq!(tree.parent(16), Some(14));
}

#[test]
fn depths_of_a_walk_are_well_formed() {
    assert!(sample_tree().is_well_formed());
    assert!(SyntaxTree::new(Vec::new()).is_well_formed());
    assert!(methods_only(&[(0, 1), (2, 3)]).is_well_formed());
    let two_roots = SyntaxTree::new(vec![
        node(NodeKind::Other, FieldTag::Other, 0, 1, 0),
        node(NodeKind::Other, FieldTag::Other, 1, 2, 0),
    ]);
    assert!(!two_roots.is_well_formed());
    let deep_root = SyntaxTree::new(vec![node(NodeKind::Other, FieldTag::Other, 0, 1, 1)]);
    assert!(!deep_root.is_well_formed());
    let jump = SyntaxTree::new(vec![
        node(NodeKind::Other, FieldTag::Other, 0, 1, 0),
        node(NodeKind::Other, FieldTag::Other, 0, 1, 2),
    ]);
    assert!(!jump.is_well_formed());
}

#[test]
fn method_of_a_hand_written_tree_is_renamed() {
    assert_eq!(
        rename_methods(SOURCE, &sample_tree()),
        "class T { void func_1(int p) { int x = p; } }"
    );
}

#[test]
fn locals_of_a_hand_written_tree_are_renamed() {
    assert_eq!(
        rename_locals(SOURCE, &sample_tree()),
        "class T { void a(int var_1) { int var_2 = var_1; } }"
    );
}

#[test]
fn empty_tree_renames_nothing() {
    let tree = SyntaxTree::new(Vec::new());
    assert_eq!(rename_methods(SOURCE, &tree), SOURCE);
    assert_eq!(rename_locals(SOURCE, &tree), SOURCE);
}

#[test]
fn method_without_a_name_gets_none() {
    let tree = SyntaxTree::new(vec![
        node(NodeKind::Other, FieldTag::Other, 0, 7, 0),
        node(NodeKind::MethodDeclaration, FieldTag::Other, 0, 3, 1),
        node(NodeKind::Identifier, FieldTag::Other, 0, 3, 2),
        node(NodeKind::MethodDeclaration, FieldTag::Other, 4, 7, 1),
        node(NodeKind::Identifier, FieldTag::Name, 4, 7, 2),
    ]);
    assert_eq!(rename_methods("abc def", &tree), "abc func_1");
}

#[test]
fn name_span_outside_the_source_is_passed_over() {
    let tree = methods_only(&[(0, 3), (4, 9), (5, 4), (4, 7)]);
    assert_eq!(rename_methods("abc def", &tree), "func_1 func_2");
}

#[test]
fn empty_name_span_is_passed_over() {
    let tree = methods_only(&[(2, 2), (4, 7)]);
    assert_eq!(rename_methods("abc def", &tree), "abc func_1");
}

#[test]
fn reserved_word_is_never_renamed() {
    let tree = methods_only(&[(0, 3), (4, 7), (8, 12)]);
    assert_eq!(rename_methods("int foo null", &tree), "int func_1 null");
}

#[test]
fn name_span_in_a_comment_or_string_is_passed_over() {
    let source = "ab /* cd */ \"ef\" gh";
    let tree = methods_only(&[(0, 2), (6, 8), (13, 15), (17, 19), (1, 4)]);
    assert_eq!(rename_methods(source, &tree), "func_1 /* cd */ \"ef\" func_2");
}

#[test]
fn name_span_that_splits_a_character_is_passed_over() {
    let source = "é x";
    let tree = methods_only(&[(0, 1), (1, 2), (3, 4)]);
    assert_eq!(rename_methods(source, &tree), "é func_1");
    let tree = methods_only(&[(0, 2), (3, 4)]);
    assert_eq!(rename_methods(source, &tree), "func_1 func_2");
}

#[test]
fn overlapping_name_span_is_passed_over() {
    let tree = methods_only(&[(2, 5), (4, 7), (0, 3), (5, 7), (0, 2)]);
    assert_eq!(rename_methods("abcdefg", &tree), "func_3func_1func_2");
}

#[test]
fn a_name_is_declared_once() {
    let mut table = ScopeTable::new();
    assert_eq!(table.len(), 0);
    assert_eq!(table.lookup(b"x"), None);
    assert!(table.declare(b"x"));
    assert!(table.declare(b"y"));
    assert!(!table.declare(b"x"));
    assert!(!table.declare(b"int"));
    assert!(!table.declare(b"true"));
    assert_eq!(table.len(), 2);
    assert_eq!(table.lookup(b"x"), Some(0));
    assert_eq!(table.lookup(b"y"), Some(1));
    assert_eq!(table.lookup(b"int"), None);
    assert_eq!(table.lookup(b"z"), None);
}

#[test]
fn table_of_a_method_holds_parameters_then_locals() {
    let tree = sample_tree();
    let table = build_scope_table(SOURCE.as_bytes(), &tree, 4);
    assert_eq!(table.len(), 2);
    assert_eq!(table.lookup(b"p"), Some(0));
    assert_eq!(table.lookup(b"x"), Some(1));
    assert_eq!(table.lookup(b"a"), None);
    // a node that declares no method has an empty table
    assert_eq!(build_scope_table(SOURCE.as_bytes(), &tree, 0).len(), 0);
}

#[test]
fn each_pass_takes_its_own_nodes() {
    let tree = sample_tree();
    assert_eq!(find_target(&tree, Pass::Parameters, 7, 8), Some(10));
    assert_eq!(find_target(&tree, Pass::Parameters, 7, 9), None);
    assert_eq!(find_target(&tree, Pass::Parameters, 7, 10), None);
    assert_eq!(find_target(&tree, Pass::Declarations, 11, 14), Some(15));
    assert_eq!(find_target(&tree, Pass::Declarations, 11, 12), None);
    assert_eq!(find_target(&tree, Pass::Declarations, 11, 15), None);
    assert_eq!(find_target(&tree, Pass::References, 11, 15), Some(15));
    assert_eq!(find_target(&tree, Pass::References, 11, 16), Some(16));
    assert_eq!(find_target(&tree, Pass::References, 11, 13), None);
    // the name of a method is no reference, the name of a class is
    assert_eq!(find_target(&tree, Pass::References, 0, 6), None);
    assert_eq!(find_target(&tree, Pass::References, 0, 2), Some(2));
}

#[test]
fn declarator_outside_a_local_declaration_declares_nothing() {
    // a field: the declarator hangs under a node that is no local declaration
    let source = "int f; void m() { f = 1; }";
    let tree = SyntaxTree::new(vec![
        node(NodeKind::Other, FieldTag::Other, 0, 26, 0),
        node(NodeKind::Other, FieldTag::Other, 0, 6, 1),
        node(NodeKind::VariableDeclarator, FieldTag::Other, 4, 5, 2),
        node(NodeKind::Identifier, FieldTag::Name, 4, 5, 3),
        node(NodeKind::MethodDeclaration, FieldTag::Other, 7, 26, 1),
        node(NodeKind::Identifier, FieldTag::Name, 12, 13, 2),
        node(NodeKind::Other, FieldTag::Parameters, 13, 15, 2),
        node(NodeKind::Other, FieldTag::Body, 16, 26, 2),
        node(NodeKind::Identifier, FieldTag::Other, 18, 19, 3),
    ]);
    assert_eq!(rename_locals(source, &tree), source);
}

#[test]
fn grammar_names_are_told_apart() {
    assert_eq!(node_kind("method_declaration"), NodeKind::MethodDeclaration);
    assert_eq!(node_kind("formal_parameter"), NodeKind::FormalParameter);
    assert_eq!(node_kind("spread_parameter"), NodeKind::SpreadParameter);
    assert_eq!(node_kind("local_variable_declaration"), NodeKind::LocalVariableDeclaration);
    assert_eq!(node_kind("variable_declarator"), NodeKind::VariableDeclarator);
    assert_eq!(node_kind("identifier"), NodeKind::Identifier);
    assert_eq!(node_kind("constructor_declaration"), NodeKind::Other);
    assert_eq!(node_kind("type_identifier"), NodeKind::Other);
    assert_eq!(node_kind(""), NodeKind::Other);
    assert_eq!(field_tag(Some("name")), FieldTag::Name);
    assert_eq!(field_tag(Some("parameters")), FieldTag::Parameters);
    assert_eq!(field_tag(Some("body")), FieldTag::Body);
    assert_eq!(field_tag(Some("type")), FieldTag::Other);
    assert_eq!(field_tag(None), FieldTag::Other);
}

#[test]
fn parser_gives_the_tree_of_the_source() {
    let tree = parse_java(SOURCE).unwrap();
    assert!(tree.is_well_formed());
    let found: Vec<(NodeKind, FieldTag, usize, usize, usize)> = tree
        .nodes
        .iter()
        .filter(|n| n.kind != NodeKind::Other)
        .map(|n| (n.kind, n.field, n.start, n.end, n.depth))
        .collect();
    assert_eq!(
        found,
        vec![
            (NodeKind::Identifier, FieldTag::Name, 6, 7, 2),
            (NodeKind::MethodDeclaration, FieldTag::Other, 10, 38, 3),
            (NodeKind::Identifier, FieldTag::Name, 15, 16, 4),
            (NodeKind::FormalParameter, FieldTag::Other, 17, 22, 5),
            (NodeKind::Identifier, FieldTag::Name, 21, 22, 6),
            (NodeKind::LocalVariableDeclaration, FieldTag::Other, 26, 36, 5),
            (NodeKind::VariableDeclarator, FieldTag::Other, 30, 35, 6),
            (NodeKind::Identifier, FieldTag::Name, 30, 31, 7),
            (NodeKind::Identifier, FieldTag::Other, 34, 35, 7),
        ]
    );
    assert_eq!(tree.nodes[0].depth, 0);
    assert_eq!((tree.nodes[0].start, tree.nodes[0].end), (0, 40));
}

#[test]
fn parser_takes_any_text() {
    for source in ["", "}}}} (((", "class", "\u{0}\u{1}", "/* open", "class T { void m( { int x = ; }"] {
        let tree = parse_java(source).unwrap();
        assert!(tree.is_well_formed());
        assert!(tree.len() >= 1);
    }
}

#[test]
fn rewrite_takes_a_free_span_once() {
    let mut rw = Rewrite::new("ab /* cd */ ef");
    assert_eq!(rw.len(), 0);
    assert_eq!(rw.bytes(), b"ab /* cd */ ef");
    assert!(rw.accepts(0, 2));
    rw.take(0, 2, "X".to_string());
    assert_eq!(rw.len(), 1);
    assert!(!rw.accepts(0, 2));
    assert!(!rw.accepts(0, 1));
    assert!(!rw.accepts(1, 3));
    assert!(rw.accepts(2, 3));
    assert!(rw.accepts(12, 14));
    rw.take(12, 14, "YY".to_string());
    assert!(!rw.accepts(13, 14));
    assert_eq!(rw.len(), 2);
    assert_eq!(rw.finish(), "X /* cd */ YY");
}

#[test]
fn rewrite_refuses_what_may_not_be_replaced() {
    let rw = Rewrite::new("é int \"s\" 'c' // x\nab");
    // empty, reversed and outside the source
    assert!(!rw.accepts(3, 3));
    assert!(!rw.accepts(5, 3));
    assert!(!rw.accepts(22, 24));
    // not between two characters
    assert!(!rw.accepts(0, 1));
    assert!(!rw.accepts(1, 2));
    assert!(rw.accepts(0, 2));
    // a reserved word
    assert!(!rw.accepts(3, 6));
    assert!(rw.accepts(3, 5));
    // inside a string, a character literal, a comment
    assert!(!rw.accepts(8, 9));
    assert!(!rw.accepts(6, 8));
    assert!(!rw.accepts(12, 13));
    assert!(!rw.accepts(18, 19));
    assert!(!rw.accepts(17, 20));
    // a byte that means something to the scanner
    assert!(!rw.accepts(19, 21));
    assert!(!rw.accepts(19, 20));
    assert!(rw.accepts(20, 22));
    assert!(!rw.accepts(20, 23));
    assert_eq!(rw.finish(), "é int \"s\" 'c' // x\nab");
}

#[test]
fn rewrite_refuses_bytes_that_mean_something_to_the_scanner() {
    let rw = Rewrite::new("a/b*c\\d\ne f$g");
    assert!(rw.accepts(0, 1));
    assert!(!rw.accepts(1, 2));
    assert!(!rw.accepts(0, 3));
    assert!(!rw.accepts(3, 4));
    assert!(!rw.accepts(5, 6));
    assert!(!rw.accepts(7, 8));
    assert!(!rw.accepts(6, 9));
    assert!(rw.accepts(8, 9));
    assert!(rw.accepts(8, 11));
    assert!(rw.accepts(10, 13));
}

#[test]
fn name_span_over_the_end_of_a_comment_line_is_passed_over() {
    // replacing the line end would draw the next line into the comment
    let source = "// c\n/* a\n b */ x";
    let tree = methods_only(&[(4, 5), (16, 17)]);
    assert_eq!(rename_methods(source, &tree), "// c\n/* a\n b */ func_1");
}
