use treedraw::parser::{parse_tree, Node, ParseError, Tree};

fn node<'a>(tree: &'a Tree, name: &str) -> &'a Node {
    tree.nodes
        .iter()
        .find(|n| n.name == name)
        .unwrap_or_else(|| panic!("no node named {}", name))
}

#[test]
fn unresolved_parent_is_fatal() {
    let res = parse_tree(":start-tree:\na(root);\n:end-tree:");
    assert_eq!(res, Err(ParseError::UnresolvedParent("root".to_string())));
}

#[test]
fn children_attach_in_first_seen_order() {
    let tree = parse_tree(":start-tree:\nroot;\na(root);b(root)\n:end-tree:").unwrap();
    assert_eq!(node(&tree, "root").children, vec!["a".to_string(), "b".to_string()]);
    assert!(node(&tree, "a").attributes.is_empty());
    assert!(node(&tree, "b").attributes.is_empty());
    assert!(node(&tree, "a").children.is_empty());
    assert!(node(&tree, "b").children.is_empty());
}

#[test]
fn malformed_attribute_cites_fragment() {
    let res = parse_tree(":start-tree:\nroot[color]\n:end-tree:");
    assert_eq!(res, Err(ParseError::MalformedAttribute("color".to_string())));
}

#[test]
fn parsing_is_deterministic() {
    let text = ":start-tree[dir=vertical,spacing=40]:\nroot[color=red];\na(root); b(root)[label=Yes];\nc(a); d(a)\n:end-tree:";
    let first = parse_tree(text).unwrap();
    let second = parse_tree(text).unwrap();
    assert_eq!(first, second);
}

#[test]
fn attributes_and_parents_parse_together() {
    let tree = parse_tree(
        ":start-tree[dir=vertical,spacing=40]:\nroot[color=red];\na(root); b(root)[label=Yes];\nc(a); d(a)\n:end-tree:",
    )
    .unwrap();
    assert_eq!(
        tree.tree_attributes,
        vec![
            ("dir".to_string(), "vertical".to_string()),
            ("spacing".to_string(), "40".to_string())
        ]
    );
    assert_eq!(
        node(&tree, "root").attributes,
        vec![("color".to_string(), "red".to_string())]
    );
    assert_eq!(node(&tree, "root").children, vec!["a".to_string(), "b".to_string()]);
    assert_eq!(node(&tree, "a").children, vec!["c".to_string(), "d".to_string()]);
    assert_eq!(
        node(&tree, "b").attributes,
        vec![("label".to_string(), "Yes".to_string())]
    );
}

#[test]
fn lines_outside_scope_are_ignored() {
    let tree = parse_tree("noise; more(noise)\n:start-tree:\nroot\n:end-tree:\nafter(end)").unwrap();
    assert_eq!(tree.nodes.len(), 1);
    assert_eq!(tree.nodes[0].name, "root");
}

#[test]
fn first_registration_wins_for_attributes() {
    let tree = parse_tree(":start-tree:\nn[color=red]\nn(n2)[color=blue];n2\n:end-tree:").unwrap();
    assert_eq!(
        node(&tree, "n").attributes,
        vec![("color".to_string(), "red".to_string())]
    );
    assert_eq!(node(&tree, "n2").children, vec!["n".to_string()]);
}

#[test]
fn unclosed_bracket_on_directive_is_malformed() {
    let res = parse_tree(":start-tree[dir=x:\nroot\n:end-tree:");
    assert_eq!(
        res,
        Err(ParseError::MalformedDirective(":start-tree[dir=x:".to_string()))
    );
}

#[test]
fn unclosed_paren_in_clause_is_malformed() {
    let res = parse_tree(":start-tree:\na(root\n:end-tree:");
    assert_eq!(res, Err(ParseError::MalformedClause("a(root".to_string())));
}

#[test]
fn unclosed_bracket_in_clause_is_malformed() {
    let res = parse_tree(":start-tree:\na[color=red\n:end-tree:");
    assert_eq!(res, Err(ParseError::MalformedClause("a[color=red".to_string())));
}

#[test]
fn empty_clauses_and_blank_lines_are_skipped() {
    let tree = parse_tree(":start-tree:\n\n ; ;root; \n:end-tree:").unwrap();
    assert_eq!(tree.nodes.len(), 1);
    assert_eq!(tree.nodes[0].name, "root");
}

#[test]
fn content_after_end_marker_is_ignored() {
    let tree = parse_tree(":start-tree:\nroot\n:end-tree:\nb(missing)\n").unwrap();
    assert_eq!(tree.nodes.len(), 1);
}

#[test]
fn attribute_keys_and_values_are_trimmed() {
    let tree = parse_tree(":start-tree:\nroot[ color = red , size = 3 ]\n:end-tree:").unwrap();
    assert_eq!(
        node(&tree, "root").attributes,
        vec![
            ("color".to_string(), "red".to_string()),
            ("size".to_string(), "3".to_string())
        ]
    );
}

#[test]
fn later_attribute_overwrites_earlier_key() {
    let tree = parse_tree(":start-tree:\nroot[c=1,c=2]\n:end-tree:").unwrap();
    assert_eq!(
        node(&tree, "root").attributes,
        vec![("c".to_string(), "2".to_string())]
    );
}

#[test]
fn round_trip_preserves_structure() {
    let tree = Tree {
        nodes: vec![
            Node {
                name: "root".to_string(),
                children: vec!["a".to_string(), "b".to_string()],
                attributes: vec![("color".to_string(), "red".to_string())],
            },
            Node {
                name: "a".to_string(),
                children: vec!["c".to_string()],
                attributes: vec![],
            },
            Node {
                name: "b".to_string(),
                children: vec![],
                attributes: vec![("label".to_string(), "Yes".to_string())],
            },
            Node { name: "c".to_string(), children: vec![], attributes: vec![] },
        ],
        tree_attributes: vec![("dir".to_string(), "vertical".to_string())],
    };
    let text = treedraw::render::render_tree(&tree);
    let back = parse_tree(&text).unwrap();
    assert_eq!(tree, back);
}

#[test]
fn rendering_a_parsed_tree_is_stable() {
    let text = ":start-tree[dir=vertical]:\nroot[color=red];\na(root); b(root)\n:end-tree:";
    let tree = parse_tree(text).unwrap();
    let rendered = treedraw::render::render_tree(&tree);
    let again = parse_tree(&rendered).unwrap();
    assert_eq!(tree, again);
}
