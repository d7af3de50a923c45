use optimizer::parse_tree::{parse, parse_line, LineError, ParsedLine};
use optimizer::tree::{Node, NodeRef, NodeType, Tree};
use optimizer::genome::node_from_str;

fn line_ok(line: &str) -> ParsedLine {
    parse_line(line).unwrap()
}

fn line_err(line: &str) -> LineError {
    parse_line(line).unwrap_err()
}

fn parse_err(text: &str) -> String {
    match parse(text) {
        Ok(_) => panic!("expected an error"),
        Err(e) => e,
    }
}

#[test]
fn parse_tree_test_basic() {
    let result = line_ok("\u{fc}category: \u{fc}personal \u{fc}projects");
    assert_eq!(result.indent, 0);
    assert!(!result.is_metadata);
    assert!(result.id.is_none());
    assert_eq!(result.node_type, "\u{fc}category");
    assert_eq!(result.text, Some("\u{fc}personal \u{fc}projects".to_string()));
}

#[test]
fn parse_tree_test_basic_nodeid() {
    let result = line_ok("\u{fc}category#asdfg: \u{fc}personal \u{fc}projects");
    assert_eq!(result.indent, 0);
    assert!(!result.is_metadata);
    assert_eq!(result.id, Some("asdfg".to_string()));
    assert_eq!(result.node_type, "\u{fc}category");
    assert_eq!(result.text, Some("\u{fc}personal \u{fc}projects".to_string()));
}

#[test]
fn parse_tree_test_indent() {
    let result = line_ok("    \u{fc}project: \u{fc}todo \u{fc}tracker");
    assert_eq!(result.indent, 1);
    assert!(!result.is_metadata);
    assert!(result.id.is_none());
    assert_eq!(result.node_type, "\u{fc}project");
    assert_eq!(result.text, Some("\u{fc}todo \u{fc}tracker".to_string()));
}

#[test]
fn parse_tree_test_indent_id() {
    let result = line_ok("    \u{fc}project#hjklo: \u{fc}todo \u{fc}tracker");
    assert_eq!(result.indent, 1);
    assert!(!result.is_metadata);
    assert_eq!(result.id, Some("hjklo".to_string()));
    assert_eq!(result.node_type, "\u{fc}project");
    assert_eq!(result.text, Some("\u{fc}todo \u{fc}tracker".to_string()));
}

#[test]
fn parse_tree_test_empty_line() {
    let result = line_ok("");
    assert_eq!(result.indent, 0);
    assert!(!result.is_metadata);
    assert!(result.id.is_none());
    assert_eq!(result.node_type, "");
    assert!(result.text.is_none());
}

#[test]
fn parse_tree_test_empty_line_indent() {
    let result = line_ok("      ");
    assert_eq!(result.indent, 0);
    assert!(!result.is_metadata);
    assert!(result.id.is_none());
    assert_eq!(result.node_type, "");
    assert!(result.text.is_none());
}

#[test]
fn parse_tree_test_notext() {
    let result = line_ok("        minor\u{fc} tasks");
    assert_eq!(result.indent, 2);
    assert!(!result.is_metadata);
    assert!(result.id.is_none());
    assert_eq!(result.node_type, "minor\u{fc} tasks");
    assert!(result.text.is_none());
}

#[test]
fn parse_tree_test_notext_id() {
    let result = line_ok("        minor\u{fc} tasks#abcde");
    assert_eq!(result.indent, 2);
    assert!(!result.is_metadata);
    assert_eq!(result.id, Some("abcde".to_string()));
    assert_eq!(result.node_type, "minor\u{fc} tasks");
    assert!(result.text.is_none());
}

#[test]
fn parse_tree_test_metadata() {
    let result = line_ok("    @option\u{fc}: \u{fc}value");
    assert_eq!(result.indent, 1);
    assert!(result.is_metadata);
    assert!(result.id.is_none());
    assert_eq!(result.node_type, "option\u{fc}");
    assert_eq!(result.text, Some("\u{fc}value".to_string()));
}

#[test]
fn parse_tree_test_metadata_notext() {
    let result = line_ok("    @option\u{fc}");
    assert_eq!(result.indent, 1);
    assert!(result.is_metadata);
    assert!(result.id.is_none());
    assert_eq!(result.node_type, "option\u{fc}");
    assert!(result.text.is_none());
}

#[test]
fn parse_tree_test_bad_node_id() {
    assert!(line_err("    option#longid: derp").message().contains("exactly 5"));
    assert!(line_err("    option#shrt: derp").message().contains("exactly 5"));
    assert!(line_err("    option#-----: derp").message().contains("invalid char"));
}

#[test]
fn parse_tree_test_metadata_node_id() {
    assert!(line_err("    @option#badid: derp").message().contains("IDs on meta"));
}

#[test]
fn parse_tree_test_bad_indentation() {
    assert!(line_err("  @option").message().contains("multiple of four"));
}

#[test]
fn parse_tree_test_no_space() {
    assert!(line_err("herp:derp").message().contains("Space required"));
}

#[test]
fn parse_tree_test_full_parse() {
    let lines = [
        "task#11111: 1\n",
        "    task#22222: 2\n",
        "        task#33333: 3\n",
        "        task#44444: 4\n",
        "    task#55555: 5\n",
        "    task#66666: 6\n",
        "        task#77777: 7\n",
        "            task#88888: 8\n",
        "                task#99999: 9\n",
        "        task#aaaaa: 10\n",
        "            task#bbbbb: 11\n",
        "                task#ccccc\n",
        "task#ddddd: 13\n",
    ];
    let input: String = lines.concat();

    let (parsed, parsed_root) = parse(&input).unwrap();

    let mut t = Tree::new();
    let n3 = Node::new(&mut t, NodeType::Task, "33333", Some("3"));
    let n4 = Node::new(&mut t, NodeType::Task, "44444", Some("4"));
    let n2 = Node::new_parent(&mut t, NodeType::Task, "22222", Some("2"), vec![n3, n4]);
    let n5 = Node::new(&mut t, NodeType::Task, "55555", Some("5"));
    let n9 = Node::new(&mut t, NodeType::Task, "99999", Some("9"));
    let n8 = Node::new_parent(&mut t, NodeType::Task, "88888", Some("8"), vec![n9]);
    let n7 = Node::new_parent(&mut t, NodeType::Task, "77777", Some("7"), vec![n8]);
    let nc = Node::new(&mut t, NodeType::Task, "ccccc", None);
    let nb = Node::new_parent(&mut t, NodeType::Task, "bbbbb", Some("11"), vec![nc]);
    let na = Node::new_parent(&mut t, NodeType::Task, "aaaaa", Some("10"), vec![nb]);
    let n6 = Node::new_parent(&mut t, NodeType::Task, "66666", Some("6"), vec![n7, na]);
    let n1 = Node::new_parent(&mut t, NodeType::Task, "11111", Some("1"), vec![n2, n5, n6]);
    let nd = Node::new(&mut t, NodeType::Task, "ddddd", Some("13"));
    let root = Node::new_root(&mut t, vec![n1, nd]);

    assert_eq!(parsed.nodes, t.nodes);
    assert_eq!(parsed_root, root);
}

#[test]
fn test_error_line() {
    assert!(parse_err("  task#abcde").contains("Line 1"));
}

#[test]
fn test_id_required() {
    assert!(parse_err("task").contains("ID required"));
}

#[test]
fn test_invalid_nodetype() {
    match node_from_str("derp#abcde") {
        Ok(_) => panic!("expected an error"),
        Err(e) => assert!(e.contains("Invalid node type")),
    }
}

#[test]
fn test_too_indented() {
    assert!(parse_err("        task#abcde").contains("too deep"));
}

#[test]
fn parse_counts_descendants() {
    let (tree, root) = parse("project#aaaaa: a\n    task#bbbbb: b\nproject#ccccc: c\n").unwrap();
    assert_eq!(tree.node(root).subtreesize, 3);
    assert_eq!(tree.node(root).children, vec![NodeRef(1), NodeRef(2)]);
    assert_eq!(tree.node(NodeRef(1)).nodetype, NodeType::Project);
    assert_eq!(tree.node(NodeRef(0)).nodetype, NodeType::Task);
}

#[test]
fn parse_rejects_duplicate_ids() {
    assert!(parse_err("task#aaaaa\ntask#aaaaa\n").contains("Id duplicated"));
    assert!(parse_err("task#00000\n").contains("Id duplicated"));
}

#[test]
fn parse_rejects_metadata_lines() {
    assert!(parse_err("task#aaaaa\n    @option\n").contains("Line 2: Metadata"));
}

#[test]
fn parse_skips_blank_lines_and_carriage_returns() {
    let (tree, root) = parse("\r\nproject#aaaaa: a\r\n\n   \n").unwrap();
    assert_eq!(tree.node(root).subtreesize, 1);
    assert_eq!(tree.node(NodeRef(0)).name, Some("a".to_string()));
}

#[test]
fn parse_line_dash_type_and_newline() {
    let result = line_ok("- item\n");
    assert_eq!(result.node_type, "-");
    assert_eq!(result.text, Some("item".to_string()));
}

#[test]
fn error_text_names_the_first_misfit() {
    assert_eq!(parse_err("task#aaaaa\n  task#bbbbb\n"), "Line 2: Indentation not multiple of four");
    assert_eq!(parse_err("task#aaaaa\n        task#bbbbb\n"), "Line 2: Indent too deep");
    assert_eq!(parse_err("\ntask\n"), "Line 2: ID required");
}

#[test]
fn commit_errors_name_the_line() {
    assert_eq!(parse_err("derp#abcde"), "Line 1: Invalid node type");
    assert_eq!(parse_err("task#aaaaa\n    derp#bbbbb\n"), "Line 2: Invalid node type");
    assert_eq!(parse_err("task#00000\n"), "Line 1: Id duplicated in tree");
    assert_eq!(parse_err("task#aaaaa\ntask#aaaaa\n"), "Line 2: Id duplicated in tree");
}

#[test]
fn children_follow_indentation() {
    let (tree, root) = parse("project#aaaaa: a\n    task#bbbbb: b\n        task#ccccc: c\n    task#ddddd: d\nproject#eeeee: e\n").unwrap();
    // nodes are built deepest first: c, b, d, a, e, root
    assert_eq!(tree.node(root).children, vec![NodeRef(3), NodeRef(4)]);
    assert_eq!(tree.node(NodeRef(3)).children, vec![NodeRef(1), NodeRef(2)]);
    assert_eq!(tree.node(NodeRef(1)).children, vec![NodeRef(0)]);
    let walk: Vec<String> = (0..5).map(|k| tree.node(tree.find_node(root, k)).id.clone()).collect();
    assert_eq!(walk, vec!["aaaaa", "bbbbb", "ccccc", "ddddd", "eeeee"]);
}
