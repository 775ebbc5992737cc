use taskigt::codec::build_text;
use taskigt::codec::build_text_folded;
use taskigt::itemtree::child;
use taskigt::itemtree::Item;
use taskigt::itemtree::ItemKind;
use taskigt::itemtree::ItemTree;
use taskigt::model::Node;
use taskigt::model::NodeKind;

#[test]
fn parse_empty() {
    let doc = "";
    let tree = ItemTree::parse("the doc", doc);
    assert_eq!(child("the doc", vec![]), tree);
}

#[test]
fn parse_document() {
    let doc = "- dude\n  * sweet\n  ? what";
    let tree = ItemTree::parse("the doc", doc);
    assert_eq!(
        child(
            "the doc",
            vec![(
                ItemKind::Info,
                child(
                    "dude",
                    vec![
                        (ItemKind::Doing, child("sweet", vec![])),
                        (ItemKind::Planned, child("what", vec![])),
                    ],
                ),
            )],
        ),
        tree
    );
}

#[test]
fn parse_slim_item() {
    assert_eq!(Item::leaf(ItemKind::Info, "myitem"), Item::parse("-myitem"));
}

#[test]
fn empty_document_is_root_only() {
    let tree = ItemTree::parse("the doc", "");
    assert_eq!(tree.nodes.len(), 1);
    assert_eq!(tree.parents.len(), 1);
    assert_eq!(tree.title(), "the doc".to_string());
    assert!(tree.nodes[0].children_ids.is_empty());
    assert_eq!(tree.parent(0), None);
}

#[test]
fn symbols_of_all_kinds() {
    assert_eq!(ItemKind::Planned.symbol(), "?");
    assert_eq!(ItemKind::Doing.symbol(), "*");
    assert_eq!(ItemKind::Done.symbol(), "#");
    assert_eq!(ItemKind::Info.symbol(), "-");
    assert_eq!(ItemKind::Verbatim(None).symbol(), "|");
    assert_eq!(ItemKind::Verbatim(Some("rust".to_string())).symbol(), "|");
}

#[test]
fn display_then_parse_recovers_each_kind() {
    let kinds = vec![
        ItemKind::Planned,
        ItemKind::Doing,
        ItemKind::Done,
        ItemKind::Info,
        ItemKind::Verbatim(None),
    ];
    for kind in kinds {
        let item = Item::leaf(kind, "some text with spaces");
        assert_eq!(Item::parse(&item.display()), item);
    }
}

#[test]
fn display_then_parse_keeps_odd_texts() {
    // a leading space in the text survives: display adds exactly one
    // separator and parse strips exactly one
    let item = Item::leaf(ItemKind::Planned, " leading space");
    assert_eq!(Item::parse(&item.display()), item);
    let empty = Item::leaf(ItemKind::Done, "");
    assert_eq!(Item::parse(&empty.display()), empty);
}

#[test]
fn markerless_line_is_info_with_full_text() {
    assert_eq!(Item::parse("hello world"), Item::leaf(ItemKind::Info, "hello world"));
    assert_eq!(Item::parse(""), Item::leaf(ItemKind::Info, ""));
}

#[test]
fn whitespace_only_line_is_blank_info_item() {
    let tree = ItemTree::parse("t", "    ");
    assert_eq!(tree.nodes.len(), 2);
    assert_eq!(tree.nodes[1].kind, ItemKind::Info);
    assert_eq!(tree.nodes[1].text, "".to_string());
    assert_eq!(tree.parent(1), Some(0));
}

#[test]
fn indentation_fallback_attaches_to_nearest_shallower() {
    // a level-2 line with no level-1 line goes under the level-0 line, not
    // under the root
    let tree = ItemTree::parse("t", "- a\n    * b");
    assert_eq!(tree.nodes.len(), 3);
    assert_eq!(tree.nodes[1].text, "a".to_string());
    assert_eq!(tree.nodes[2].text, "b".to_string());
    assert_eq!(tree.nodes[2].kind, ItemKind::Doing);
    assert_eq!(tree.parent(2), Some(1));
    assert_eq!(tree.nodes[1].children_ids, vec![2]);
}

#[test]
fn end_to_end_parse_and_render() {
    let doc = "- dude\n  * sweet\n  ? what";
    let tree = ItemTree::parse("the doc", doc);
    assert_eq!(tree.title(), "the doc".to_string());
    assert_eq!(tree.nodes[0].children_ids, vec![1]);
    assert_eq!(tree.nodes[1].kind, ItemKind::Info);
    assert_eq!(tree.nodes[1].text, "dude".to_string());
    assert_eq!(tree.nodes[1].children_ids, vec![2, 3]);
    assert_eq!(tree.nodes[2].kind, ItemKind::Doing);
    assert_eq!(tree.nodes[2].text, "sweet".to_string());
    assert_eq!(tree.nodes[3].kind, ItemKind::Planned);
    assert_eq!(tree.nodes[3].text, "what".to_string());
    let text = build_text(tree.root(), &tree.nodes);
    assert_eq!(text, "  - dude\n    * sweet\n    ? what\n".to_string());
}

#[test]
fn render_then_parse_rebuilds_the_tree() {
    let doc = "- dude\n  * sweet\n  ? what\n# done item\n| verbatim";
    let tree = ItemTree::parse("the doc", doc);
    let text = build_text(tree.root(), &tree.nodes);
    let again = ItemTree::parse("the doc", &text);
    assert_eq!(tree, again);
    // and the render of the reparse is byte-identical
    assert_eq!(build_text(again.root(), &again.nodes), text);
}

#[test]
fn add_child_appends_in_order() {
    let mut tree = ItemTree::new("t");
    let a = tree.add_child(0, Item::leaf(ItemKind::Info, "a"));
    let b = tree.add_child(0, Item::leaf(ItemKind::Doing, "b"));
    let c = tree.add_child(a, Item::leaf(ItemKind::Done, "c"));
    assert_eq!((a, b, c), (1, 2, 3));
    assert_eq!(tree.nodes[0].children_ids, vec![1, 2]);
    assert_eq!(tree.nodes[1].children_ids, vec![3]);
    assert_eq!(tree.parent(3), Some(1));
}

#[test]
fn add_child_at_inserts_and_clamps() {
    let mut tree = ItemTree::new("t");
    tree.add_child(0, Item::leaf(ItemKind::Info, "a"));
    tree.add_child(0, Item::leaf(ItemKind::Info, "b"));
    // in the middle
    let c = tree.add_child_at(0, 1, Item::leaf(ItemKind::Info, "c"));
    assert_eq!(tree.nodes[0].children_ids, vec![1, c, 2]);
    // far past the end: appends instead of failing
    let d = tree.add_child_at(0, 99, Item::leaf(ItemKind::Info, "d"));
    assert_eq!(tree.nodes[0].children_ids, vec![1, c, 2, d]);
    // at the front
    let e = tree.add_child_at(0, 0, Item::leaf(ItemKind::Info, "e"));
    assert_eq!(tree.nodes[0].children_ids, vec![e, 1, c, 2, d]);
}

#[test]
fn remove_if_leaf_detaches_a_leaf() {
    let mut tree = ItemTree::parse("t", "- a\n  * b\n  ? c");
    assert!(tree.remove_if_leaf(2));
    // the id disappears from its parent's child list; the slot stays
    assert_eq!(tree.nodes[1].children_ids, vec![3]);
    assert_eq!(tree.nodes.len(), 4);
}

#[test]
fn remove_if_leaf_refuses_a_parent() {
    let tree = ItemTree::parse("t", "- a\n  * b");
    let mut touched = tree.clone();
    assert!(!touched.remove_if_leaf(1));
    // failure leaves the tree identical, id assignments included
    assert_eq!(touched, tree);
}

#[test]
fn remove_if_leaf_refuses_the_root() {
    let tree = ItemTree::parse("t", "");
    let mut touched = tree.clone();
    assert!(!touched.remove_if_leaf(0));
    assert_eq!(touched, tree);
}

#[test]
fn graft_renumbers_the_donor() {
    // receiving tree of size 2: root and one node
    let mut tree = ItemTree::parse("t", "- a");
    // donor of size 2: a root and one child
    let mut donor = child("d", vec![(ItemKind::Doing, child("c", vec![]))]);
    assert_eq!(donor.nodes.len(), 2);
    tree.append(1, ItemKind::Done, &mut donor);
    // the grafted root got id 2, re-typed, text kept
    assert_eq!(tree.nodes.len(), 4);
    assert_eq!(tree.nodes[2].kind, ItemKind::Done);
    assert_eq!(tree.nodes[2].text, "d".to_string());
    assert_eq!(tree.parent(2), Some(1));
    assert_eq!(tree.nodes[1].children_ids, vec![2]);
    // the grafted child got id 3 and points at 2, not at its pre-graft id
    assert_eq!(tree.nodes[2].children_ids, vec![3]);
    assert_eq!(tree.parent(3), Some(2));
    assert_eq!(tree.nodes[3].kind, ItemKind::Doing);
    assert_eq!(tree.nodes[3].text, "c".to_string());
    // the donor is drained
    assert!(donor.nodes.is_empty());
    assert!(donor.parents.is_empty());
}

#[test]
fn set_title_replaces_only_the_title() {
    let mut tree = ItemTree::parse("old", "- a");
    tree.set_title("new".to_string());
    assert_eq!(tree.title(), "new".to_string());
    assert_eq!(tree.nodes[1].text, "a".to_string());
}

#[test]
fn replace_from_line_keeps_children() {
    let mut tree = ItemTree::parse("t", "- a\n  * b\n  ? c");
    tree.replace_from_line(1, "# finished");
    assert_eq!(tree.nodes[1].kind, ItemKind::Done);
    assert_eq!(tree.nodes[1].text, "finished".to_string());
    assert_eq!(tree.nodes[1].children_ids, vec![2, 3]);
}

#[test]
fn folded_render_collapses_a_subtree() {
    let tree = ItemTree::parse("t", "- a\n  - b\n- c");
    let folded = vec![1];
    let text = build_text_folded(tree.root(), &tree.nodes, &folded);
    assert_eq!(text, "  - a\n    [...]\n  - c\n".to_string());
}

#[test]
fn folded_render_without_folds_is_the_canonical_render() {
    let tree = ItemTree::parse("t", "- a\n  - b\n- c");
    let folded: Vec<usize> = vec![];
    assert_eq!(
        build_text_folded(tree.root(), &tree.nodes, &folded),
        build_text(tree.root(), &tree.nodes)
    );
}

#[test]
fn folded_render_of_a_childless_node_shows_no_placeholder() {
    let tree = ItemTree::parse("t", "- a\n- c");
    let folded = vec![1];
    let text = build_text_folded(tree.root(), &tree.nodes, &folded);
    assert_eq!(text, "  - a\n  - c\n".to_string());
}

#[test]
fn folded_render_of_the_root_is_one_placeholder() {
    let tree = ItemTree::parse("t", "- a\n- c");
    let folded = vec![0];
    let text = build_text_folded(tree.root(), &tree.nodes, &folded);
    assert_eq!(text, "  [...]\n".to_string());
}

#[test]
fn blank_line_becomes_blank_info_under_root() {
    let tree = ItemTree::parse("t", "- a\n\n- b");
    assert_eq!(tree.nodes.len(), 4);
    assert_eq!(tree.nodes[2].kind, ItemKind::Info);
    assert_eq!(tree.nodes[2].text, "".to_string());
    assert_eq!(tree.parent(2), Some(0));
    assert_eq!(tree.nodes[0].children_ids, vec![1, 2, 3]);
}

#[test]
fn trailing_newline_adds_no_line() {
    assert_eq!(ItemTree::parse("t", "- a\n"), ItemTree::parse("t", "- a"));
}

#[test]
fn crlf_terminator_reads_as_one() {
    assert_eq!(
        ItemTree::parse("t", "- a\r\n  * b\r\n"),
        ItemTree::parse("t", "- a\n  * b")
    );
}

#[test]
fn lone_carriage_return_stays_in_the_text() {
    let tree = ItemTree::parse("t", "- a\rb");
    assert_eq!(tree.nodes[1].text, "a\rb".to_string());
    // also at the end of an unterminated last line
    let tail = ItemTree::parse("t", "- a\r");
    assert_eq!(tail.nodes[1].text, "a\r".to_string());
}

#[test]
fn node_kind_parse_reports_instead_of_defaulting() {
    assert_eq!(NodeKind::parse(""), Err(0));
    assert_eq!(NodeKind::parse("xyz"), Err(1));
    assert_eq!(NodeKind::parse("? todo"), Ok(NodeKind::Planned));
    assert_eq!(NodeKind::parse("| quote"), Ok(NodeKind::Verbatim(None)));
}

#[test]
fn node_parse_reads_like_item_parse() {
    // a recognized marker and one separating space are removed
    assert_eq!(Node::parse("* task"), Node::leaf(NodeKind::Doing, "task"));
    // a marker-less line is kept whole
    assert_eq!(Node::parse("xyz"), Node::leaf(NodeKind::Info, "xyz"));
    // an empty line stays empty
    assert_eq!(Node::parse(""), Node::leaf(NodeKind::Info, ""));
    // a marker with nothing after it leaves no text
    assert_eq!(Node::parse("?"), Node::leaf(NodeKind::Planned, ""));
    // a marker not followed by a space strips no separator
    assert_eq!(Node::parse("-myitem"), Node::leaf(NodeKind::Info, "myitem"));
}

#[test]
fn node_display_matches_item_display() {
    let node = Node::leaf(NodeKind::Doing, "same line");
    let item = Item::leaf(ItemKind::Doing, "same line");
    assert_eq!(node.display(), item.display());
    assert_eq!(NodeKind::Done.symbol(), ItemKind::Done.symbol());
}
