use java_dataset_converter_llm::parser::{field_tag, node_kind, parse_java};
use java_dataset_converter_llm::syntax::SyntaxNode;

fn collect(node: tree_sitter::Node, field: Option<&str>, depth: usize, out: &mut Vec<SyntaxNode>) {
    out.push(SyntaxNode {
        kind: node_kind(node.kind()),
        field: field_tag(field),
        start: node.start_byte(),
        end: node.end_byte(),
        depth,
    });
    for i in 0..node.child_count() {
        let child = node.child(i).unwrap();
        collect(child, node.field_name_for_child(i), depth + 1, out);
    }
}

/// The nodes of the tree of tree-sitter, gathered child by child.
fn by_children(source: &str) -> Vec<SyntaxNode> {
    let mut parser = tree_sitter::Parser::new();
    parser.set_language(&tree_sitter_java::LANGUAGE.into()).unwrap();
    let tree = parser.parse(source, None).unwrap();
    let mut out = Vec::new();
    collect(tree.root_node(), None, 0, &mut out);
    out
}

#[test]
fn walk_gives_every_node_of_the_tree_in_pre_order() {
    let sources = [
        "",
        "class T {}",
        "public class Test { public void myFunction(int param1) { int x = 0; x = x + param1; } }",
        "class T { /* c */ int f = 1; // d\n void m(String... a) { for (int i = 0, j = 1; i < j; i++) { a[i] = \"s\" + 'c'; } } }",
        "class T { void m() { Runnable r = new Runnable() { public void run() { int y = 0; } }; } T() {} }",
        "interface I { int f(int a, final String b); default void g() { var z = 1; } }",
        "class T { void m( { int x = ; } ",
        "}}}} ((( \"",
        "class Grüße { void m() { String ß = \"日本語\"; } }",
    ];
    for source in sources {
        let tree = parse_java(source).unwrap();
        assert!(tree.is_well_formed());
        assert_eq!(tree.nodes, by_children(source), "{}", source);
    }
}

#[test]
fn same_source_gives_the_same_tree() {
    let source = "class T { void a(int p) { int x = p; } void b() {} }";
    let first = parse_java(source).unwrap();
    let second = parse_java(source).unwrap();
    assert_eq!(first.nodes, second.nodes);
}
