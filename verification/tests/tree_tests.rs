use codex::FsOp;
use codex::NodeMeta;
use codex::Stamp;
use codex::Tree;
use codex::TreeErrorKind;
use codex::move_todos;
use codex::tree::ScanEntry;

fn stamp(d: u64) -> Stamp {
    Stamp { year: 2024, month: 6, day: d, hour: 10, minute: 0, second: 0 }
}

fn tree_with_anchors() -> Tree {
    let mut tree = Tree::build(".");
    let now = stamp(1);
    let (j, _) = tree.create_node(None, Some("journal"), now).unwrap();
    let (d, _) = tree.create_node(None, Some("desk"), now).unwrap();
    assert_eq!(j, "1-journal".to_string());
    assert_eq!(d, "2-desk".to_string());
    tree.journal = j;
    tree.desk = d;
    tree
}

fn find<'a>(tree: &'a Tree, key: &str) -> &'a codex::Node {
    tree.nodes.iter().find(|n| n.id == key).unwrap()
}

#[test]
fn creates_children_in_order() {
    let mut tree = tree_with_anchors();
    let now = stamp(1);
    let a = tree.create_node(Some("2-desk"), Some("a"), now).unwrap().0;
    let b = tree.create_node(Some("2-desk"), Some("b"), now).unwrap().0;
    assert_eq!(a, "2-desk/1-a".to_string());
    assert_eq!(b, "2-desk/2-b".to_string());
    let desk = find(&tree, "2-desk");
    assert_eq!(desk.children, vec!["2-desk/1-a".to_string(), "2-desk/2-b".to_string()]);
    let an = find(&tree, "2-desk/1-a");
    assert_eq!(an.parent, Some("2-desk".to_string()));
    assert_eq!(an.display_name, "desk / a".to_string());
}

#[test]
fn create_node_reports_missing_parent() {
    let mut tree = tree_with_anchors();
    let err = tree.create_node(Some("9-nowhere"), Some("a"), stamp(1)).unwrap_err();
    assert_eq!(err.kind, TreeErrorKind::NotFound);
}

#[test]
fn create_node_rejects_bad_arguments() {
    let mut tree = tree_with_anchors();
    let err = tree.create_node(Some("2-desk"), None, stamp(1)).unwrap_err();
    assert_eq!(err.kind, TreeErrorKind::InvalidArgs);
    let err = tree.create_node(Some("2-desk"), Some("a/b"), stamp(1)).unwrap_err();
    assert_eq!(err.kind, TreeErrorKind::InvalidArgs);
}

#[test]
fn create_node_emits_the_three_file_effects() {
    let mut tree = tree_with_anchors();
    let (_, ops) = tree.create_node(Some("2-desk"), Some("a"), stamp(1)).unwrap();
    assert_eq!(ops.len(), 4);
    match &ops[0] {
        FsOp::MkDir { path } => assert_eq!(path, &"./2-desk/1-a".to_string()),
        _ => panic!("expected a directory creation first"),
    }
    match &ops[1] {
        FsOp::WriteFile { path, .. } => assert_eq!(path, &"./2-desk/1-a/meta.toml".to_string()),
        _ => panic!("expected the metadata write second"),
    }
    match &ops[2] {
        FsOp::WriteFile { path, content } => {
            assert_eq!(path, &"./2-desk/1-a/_.md".to_string());
            assert_eq!(content, &"# a\n".to_string());
        },
        _ => panic!("expected the content write third"),
    }
    match &ops[3] {
        FsOp::WriteFile { path, .. } => assert_eq!(path, &"./2-desk/meta.toml".to_string()),
        _ => panic!("expected the parent metadata write last"),
    }
}

#[test]
fn linking_stores_link_and_backlink() {
    let mut tree = tree_with_anchors();
    let now = stamp(1);
    let a = tree.create_node(Some("2-desk"), Some("a"), now).unwrap().0;
    let b = tree.create_node(Some("2-desk"), Some("b"), now).unwrap().0;
    let ops = tree
        .link_at("L", a.as_str(), 0, 0, b.as_str(), 0, 0, 99, now)
        .unwrap();
    assert_eq!(ops.len(), 2);
    let an = find(&tree, a.as_str());
    assert_eq!(an.links.len(), 1);
    assert_eq!(an.links[0].text, "L".to_string());
    assert_eq!(an.links[0].node, b);
    let bn = find(&tree, b.as_str());
    let matching: Vec<_> = bn
        .backlinks
        .iter()
        .filter(|l| l.text == "L".to_string() && l.timestamp == 99)
        .collect();
    assert_eq!(matching.len(), 1);
    assert_eq!(matching[0].node, a);
    let (target, line) = tree.get_link(a.as_str(), "L").unwrap();
    assert_eq!(target, b);
    assert_eq!(line, 0);
}

#[test]
fn linking_unknown_endpoint_changes_nothing() {
    let mut tree = tree_with_anchors();
    let err = tree
        .link_at("L", "1-journal", 0, 0, "9-nowhere", 0, 0, 1, stamp(1))
        .unwrap_err();
    assert_eq!(err.kind, TreeErrorKind::NotFound);
    assert!(find(&tree, "1-journal").links.is_empty());
}

#[test]
fn rebalance_widens_all_other_siblings() {
    let mut tree = tree_with_anchors();
    let now = stamp(1);
    for name in ["c1", "c2", "c3", "c4", "c5", "c6", "c7", "c8", "c9"] {
        tree.create_node(Some("2-desk"), Some(name), now).unwrap();
    }
    // a link into a soon-to-be-renamed child, and one out of it
    tree.link_at("c2", "2-desk/1-c1", 5, 6, "2-desk/2-c2", 0, 0, 77, now)
        .unwrap();
    let (tenth, ops) = tree.create_node(Some("2-desk"), Some("c10"), now).unwrap();
    assert_eq!(tenth, "2-desk/10-c10".to_string());
    let desk = find(&tree, "2-desk");
    assert_eq!(desk.children.len(), 10);
    assert_eq!(desk.children[0], "2-desk/01-c1".to_string());
    assert_eq!(desk.children[8], "2-desk/09-c9".to_string());
    assert_eq!(desk.children[9], "2-desk/10-c10".to_string());
    assert!(tree.nodes.iter().any(|n| n.id == "2-desk/01-c1".to_string()));
    assert!(!tree.nodes.iter().any(|n| n.id == "2-desk/1-c1".to_string()));
    // the cross-references now name the widened keys
    let c1 = find(&tree, "2-desk/01-c1");
    assert_eq!(c1.links[0].node, "2-desk/02-c2".to_string());
    let c2 = find(&tree, "2-desk/02-c2");
    assert_eq!(c2.backlinks[0].node, "2-desk/01-c1".to_string());
    // parents keep pointing at the parent, which was not renamed
    assert_eq!(c1.parent, Some("2-desk".to_string()));
    // the effects hold one directory rename per widened sibling ...
    let renames: Vec<(&String, &String)> = ops
        .iter()
        .filter_map(|op| match op {
            FsOp::RenameDir { from, to } => Some((from, to)),
            _ => None,
        })
        .collect();
    assert_eq!(renames.len(), 9);
    assert_eq!(renames[0], (&"./2-desk/1-c1".to_string(), &"./2-desk/01-c1".to_string()));
    // ... and the re-persisted metadata of a renamed target names the new key
    let meta_writes: Vec<&String> = ops
        .iter()
        .filter_map(|op| match op {
            FsOp::WriteFile { path, content } if path == &"./2-desk/02-c2/meta.toml".to_string() =>
                Some(content),
            _ => None,
        })
        .collect();
    assert!(!meta_writes.is_empty());
    assert!(meta_writes[meta_writes.len() - 1].contains("2-desk/01-c1"));
}

#[test]
fn rebalance_rekeys_descendants() {
    let mut tree = tree_with_anchors();
    let now = stamp(1);
    tree.create_node(Some("2-desk"), Some("c1"), now).unwrap();
    tree.create_node(Some("2-desk/1-c1"), Some("leaf"), now).unwrap();
    for name in ["c2", "c3", "c4", "c5", "c6", "c7", "c8", "c9", "c10"] {
        tree.create_node(Some("2-desk"), Some(name), now).unwrap();
    }
    assert!(tree.nodes.iter().any(|n| n.id == "2-desk/01-c1/1-leaf".to_string()));
    let leaf = find(&tree, "2-desk/01-c1/1-leaf");
    assert_eq!(leaf.parent, Some("2-desk/01-c1".to_string()));
    let c1 = find(&tree, "2-desk/01-c1");
    assert_eq!(c1.children, vec!["2-desk/01-c1/1-leaf".to_string()]);
}

#[test]
fn next_sibling_wraps_cyclically() {
    let mut tree = tree_with_anchors();
    let now = stamp(1);
    for name in ["a", "b", "c", "d"] {
        tree.create_node(Some("2-desk"), Some(name), now).unwrap();
    }
    assert_eq!(tree.next_sibling("2-desk/1-a", true), "2-desk/4-d".to_string());
    assert_eq!(tree.next_sibling("2-desk/4-d", false), "2-desk/1-a".to_string());
    assert_eq!(tree.next_sibling("2-desk/2-b", false), "2-desk/3-c".to_string());
    assert_eq!(tree.next_sibling("2-desk/3-c", true), "2-desk/2-b".to_string());
    // a root node is its own neighbour
    assert_eq!(tree.next_sibling("2-desk", false), "2-desk".to_string());
}

#[test]
fn latest_journal_is_the_newest_child() {
    let mut tree = tree_with_anchors();
    let now = stamp(1);
    tree.create_node(Some("1-journal"), Some("day one"), now).unwrap();
    tree.create_node(Some("1-journal"), Some("day two"), now).unwrap();
    assert_eq!(tree.latest_journal(), "1-journal/2-day-two".to_string());
}

#[test]
fn node_parent_reads_the_stored_pointer() {
    let mut tree = tree_with_anchors();
    tree.create_node(Some("2-desk"), Some("a"), stamp(1)).unwrap();
    assert_eq!(tree.node_parent("2-desk/1-a"), Some("2-desk".to_string()));
    assert_eq!(tree.node_parent("2-desk"), None);
    assert_eq!(tree.node_parent("9-nowhere"), None);
}

#[test]
fn move_todos_carries_unchecked_items() {
    let prior = "# day\n- [] one\n  - [] two\n- [x] done\ntext\n\t- [] three".to_string();
    let current = "# today".to_string();
    let moved = move_todos(prior, current);
    assert_eq!(moved, "# today\n- [] one\n  - [] two\n\t- [] three\n".to_string());
}

#[test]
fn move_todos_with_no_items_appends_blank_tail() {
    let moved = move_todos("nothing here".to_string(), "# t".to_string());
    assert_eq!(moved, "# t\n\n".to_string());
}

#[test]
fn today_node_creates_first_entry() {
    let mut tree = tree_with_anchors();
    let (key, ops) = tree.today_node("Sat Jun 01 2024", "", stamp(1)).unwrap();
    assert_eq!(key, "1-journal/1-Sat-Jun-01-2024".to_string());
    assert_eq!(ops.len(), 4);
}

#[test]
fn today_node_returns_matching_newest_entry() {
    let mut tree = tree_with_anchors();
    tree.today_node("Sat Jun 01 2024", "", stamp(1)).unwrap();
    let (key, ops) = tree.today_node("Sat Jun 01 2024", "", stamp(1)).unwrap();
    assert_eq!(key, "1-journal/1-Sat-Jun-01-2024".to_string());
    assert!(ops.is_empty());
}

#[test]
fn today_node_rolls_unchecked_items_forward() {
    let mut tree = tree_with_anchors();
    tree.today_node("Sat Jun 01 2024", "", stamp(1)).unwrap();
    let yesterday_body = "# Sat Jun 01 2024\n- [] carry me\n- [x] not me\n";
    let (key, ops) = tree
        .today_node("Sun Jun 02 2024", yesterday_body, stamp(2))
        .unwrap();
    assert_eq!(key, "1-journal/2-Sun-Jun-02-2024".to_string());
    match ops.last().unwrap() {
        FsOp::WriteFile { path, content } => {
            assert_eq!(path, &"./1-journal/2-Sun-Jun-02-2024/_.md".to_string());
            assert_eq!(content, &"# Sun Jun 02 2024\n\n- [] carry me\n".to_string());
        },
        _ => panic!("expected the rolled-over content write last"),
    }
}

#[test]
fn load_rebuilds_from_scan_entries() {
    // write a small tree out through one in-memory tree, then read the
    // metadata text back into a fresh one
    let mut source = tree_with_anchors();
    let now = stamp(1);
    source.create_node(Some("2-desk"), Some("a"), now).unwrap();
    let mut journal_meta = None;
    let mut desk_meta = None;
    let mut a_meta = None;
    for n in source.nodes.iter_mut() {
        if n.id == "1-journal".to_string() {
            n.tag("journal".to_string(), now);
            journal_meta = Some(NodeMeta::from(n).to_toml());
        } else if n.id == "2-desk".to_string() {
            n.tag("desk".to_string(), now);
            desk_meta = Some(NodeMeta::from(n).to_toml());
        } else {
            a_meta = Some(NodeMeta::from(n).to_toml());
        }
    }
    let entries = vec![
        ScanEntry { id: "1-journal".to_string(), meta: journal_meta.unwrap() },
        ScanEntry { id: "2-desk/1-a".to_string(), meta: a_meta.unwrap() },
        ScanEntry { id: "2-desk".to_string(), meta: desk_meta.unwrap() },
    ];
    let mut tree = Tree::build(".");
    tree.load(&entries).unwrap();
    assert_eq!(tree.nodes.len(), 3);
    assert_eq!(tree.journal, "1-journal".to_string());
    assert_eq!(tree.desk, "2-desk".to_string());
    let desk = find(&tree, "2-desk");
    assert_eq!(desk.children, vec!["2-desk/1-a".to_string()]);
    let a = find(&tree, "2-desk/1-a");
    assert_eq!(a.parent, Some("2-desk".to_string()));
    assert_eq!(a.name, "a".to_string());
}

#[test]
fn load_rejects_malformed_metadata() {
    let entries = vec![ScanEntry { id: "1-journal".to_string(), meta: "not meta".to_string() }];
    let mut tree = Tree::build(".");
    let err = tree.load(&entries).unwrap_err();
    assert_eq!(err.kind, TreeErrorKind::Parse);
    assert!(tree.nodes.is_empty());
}

#[test]
fn load_requires_both_anchors() {
    let mut source = tree_with_anchors();
    let now = stamp(1);
    let mut meta = None;
    for n in source.nodes.iter_mut() {
        if n.id == "1-journal".to_string() {
            n.tag("journal".to_string(), now);
            meta = Some(NodeMeta::from(n).to_toml());
        }
    }
    let entries = vec![ScanEntry { id: "1-journal".to_string(), meta: meta.unwrap() }];
    let mut tree = Tree::build(".");
    let err = tree.load(&entries).unwrap_err();
    assert_eq!(err.kind, TreeErrorKind::NotFound);
}

#[test]
fn nodes_by_recency_sorts_descending() {
    let mut tree = tree_with_anchors();
    tree.create_node(Some("2-desk"), Some("a"), stamp(5)).unwrap();
    tree.create_node(Some("2-desk"), Some("b"), stamp(3)).unwrap();
    let sorted = tree.nodes_by_recency();
    assert_eq!(sorted.len(), tree.nodes.len());
    for w in sorted.windows(2) {
        assert!(w[1].updated.le(&w[0].updated));
    }
    // creating under the desk also ticked the desk, so the newest stamp
    // belongs to the child made at the latest time
    assert_eq!(sorted[0].id, "2-desk/1-a".to_string());
}

#[test]
fn error_text_for_missing_node_files() {
    let e = codex::NodeFilesMissingError {
        content_file_exists: false,
        metadata_file_exists: true,
        node: "2-desk".to_string(),
    };
    assert_eq!(e.err_text(), "Missing `_.md` for  2-desk".to_string());
    let e = codex::NodeFilesMissingError {
        content_file_exists: true,
        metadata_file_exists: false,
        node: "2-desk".to_string(),
    };
    assert_eq!(e.err_text(), "Missing `meta.toml` for  2-desk".to_string());
    let e = codex::NodeFilesMissingError {
        content_file_exists: false,
        metadata_file_exists: false,
        node: "2-desk".to_string(),
    };
    assert_eq!(e.err_text(), "Missing `_.md` and `meta.toml` for  2-desk".to_string());
}

#[test]
fn get_node_key_number_reads_the_tail_index() {
    assert_eq!(codex::get_node_key_number(&"2-desk/07-x".to_string()), 7);
    assert_eq!(codex::get_node_key_number(&"2-desk/1-a/12-b".to_string()), 12);
}

#[test]
fn check_wf_accepts_built_trees_and_rejects_corrupted_ones() {
    let mut tree = tree_with_anchors();
    tree.create_node(Some("2-desk"), Some("a"), stamp(1)).unwrap();
    assert!(tree.check_wf());
    // a stale duplicate key breaks well-formedness
    let copy_fields = {
        let n = find(&tree, "2-desk/1-a");
        (n.id.clone(), n.name.clone())
    };
    let mut twin = Tree::build(".");
    twin.create_node(None, Some("x"), stamp(1)).unwrap();
    let mut stray = twin.nodes.pop().unwrap();
    stray.id = copy_fields.0;
    stray.name = copy_fields.1;
    stray.parent = Some("2-desk".to_string());
    tree.nodes.push(stray);
    assert!(!tree.check_wf());
}

#[test]
fn metadata_serializes_tags_sorted_ascending() {
    let mut tree = tree_with_anchors();
    let now = stamp(1);
    for n in tree.nodes.iter_mut() {
        if n.id == "2-desk".to_string() {
            n.tag("zoo".to_string(), now);
            n.tag("apple".to_string(), now);
            n.tag("mid".to_string(), now);
        }
    }
    let desk = find(&tree, "2-desk");
    // stored order is insertion order ...
    assert_eq!(
        desk.tags,
        vec!["zoo".to_string(), "apple".to_string(), "mid".to_string()]
    );
    // ... but the record sorts tags ascending
    let meta = NodeMeta::from(desk);
    assert_eq!(
        meta.tags,
        vec!["apple".to_string(), "mid".to_string(), "zoo".to_string()]
    );
    assert!(meta.to_toml().contains("tags = [\"apple\", \"mid\", \"zoo\"]"));
}
