use rallo::{Allocation, Category, FrameInfo, Stats, Tree, TreeError};

const CWD: &str = "/work/project";

fn frame(file: &str, name: &str) -> FrameInfo {
    FrameInfo {
        filename: Some(file.to_string()),
        colno: Some(1),
        lineno: Some(1),
        fn_address: Some(0),
        fn_name: Some(name.to_string()),
    }
}

fn record(size: usize, names: &[&str]) -> Allocation {
    Allocation {
        allocation_size: size,
        deallocation_size: 0,
        address: 0,
        stack: names
            .iter()
            .map(|n| frame(&format!("{}.rs", n), n))
            .collect(),
    }
}

fn only_child(tree: &Tree, i: usize) -> usize {
    assert_eq!(tree.nodes[i].children.len(), 1);
    tree.nodes[i].children[0]
}

fn check_node(tree: &Tree, i: usize, file: &str, name: &str, totals: [usize; 4]) {
    let n = &tree.nodes[i];
    assert_eq!(n.key.filename, file);
    assert_eq!(n.key.fn_name, name);
    assert_eq!(n.key.colno, if name == "<root>" { 0 } else { 1 });
    assert_eq!(n.key.lineno, if name == "<root>" { 0 } else { 1 });
    assert_eq!(n.key.fn_address, 0);
    assert_eq!(n.key.file_content, None);
    assert_eq!(n.category, Category::Unknown);
    assert_eq!(
        [n.allocation, n.allocation_count, n.deallocation, n.deallocation_count],
        totals
    );
}

#[test]
fn test_tree_value_1() {
    let stats = Stats { allocations: vec![record(1024, &["foo", "foo2", "foo3"])] };
    let tree = stats.into_tree(CWD).unwrap();
    assert_eq!(tree.nodes.len(), 4);
    check_node(&tree, 0, "<root>", "<root>", [1024, 1, 0, 0]);
    let a = only_child(&tree, 0);
    check_node(&tree, a, "foo.rs", "foo", [1024, 1, 0, 0]);
    let b = only_child(&tree, a);
    check_node(&tree, b, "foo2.rs", "foo2", [1024, 1, 0, 0]);
    let c = only_child(&tree, b);
    check_node(&tree, c, "foo3.rs", "foo3", [1024, 1, 0, 0]);
    assert!(tree.nodes[c].children.is_empty());
}

#[test]
fn test_tree_value_2() {
    let stats = Stats {
        allocations: vec![
            record(1024, &["foo", "foo2", "foo3"]),
            record(1024, &["foo", "foo2", "foo3"]),
        ],
    };
    let tree = stats.into_tree(CWD).unwrap();
    assert_eq!(tree.nodes.len(), 4);
    check_node(&tree, 0, "<root>", "<root>", [1024 * 2, 2, 0, 0]);
    let a = only_child(&tree, 0);
    check_node(&tree, a, "foo.rs", "foo", [1024 * 2, 2, 0, 0]);
    let b = only_child(&tree, a);
    check_node(&tree, b, "foo2.rs", "foo2", [1024 * 2, 2, 0, 0]);
    let c = only_child(&tree, b);
    check_node(&tree, c, "foo3.rs", "foo3", [1024 * 2, 2, 0, 0]);
    assert!(tree.nodes[c].children.is_empty());
}

#[test]
fn test_tree_value_3() {
    let stats = Stats {
        allocations: vec![
            record(1024, &["foo", "foo2", "foo3"]),
            record(1024, &["foo", "foo2", "foo3", "foo4"]),
        ],
    };
    let tree = stats.into_tree(CWD).unwrap();
    assert_eq!(tree.nodes.len(), 5);
    check_node(&tree, 0, "<root>", "<root>", [1024 * 2, 2, 0, 0]);
    let a = only_child(&tree, 0);
    check_node(&tree, a, "foo.rs", "foo", [1024 * 2, 2, 0, 0]);
    let b = only_child(&tree, a);
    check_node(&tree, b, "foo2.rs", "foo2", [1024 * 2, 2, 0, 0]);
    let c = only_child(&tree, b);
    check_node(&tree, c, "foo3.rs", "foo3", [1024 * 2, 2, 0, 0]);
    let d = only_child(&tree, c);
    check_node(&tree, d, "foo4.rs", "foo4", [1024, 1, 0, 0]);
    assert!(tree.nodes[d].children.is_empty());
}

#[test]
fn test_tree_value_4() {
    let stats = Stats {
        allocations: vec![
            record(1024, &["foo", "foo2", "foo3"]),
            record(1024, &["foo", "foo2", "foo4"]),
        ],
    };
    let tree = stats.into_tree(CWD).unwrap();
    assert_eq!(tree.nodes.len(), 5);
    check_node(&tree, 0, "<root>", "<root>", [1024 * 2, 2, 0, 0]);
    let a = only_child(&tree, 0);
    check_node(&tree, a, "foo.rs", "foo", [1024 * 2, 2, 0, 0]);
    let b = only_child(&tree, a);
    check_node(&tree, b, "foo2.rs", "foo2", [1024 * 2, 2, 0, 0]);
    let kids = tree.nodes[b].children.clone();
    assert_eq!(kids.len(), 2);
    check_node(&tree, kids[0], "foo3.rs", "foo3", [1024, 1, 0, 0]);
    check_node(&tree, kids[1], "foo4.rs", "foo4", [1024, 1, 0, 0]);
    assert!(tree.nodes[kids[0]].children.is_empty());
    assert!(tree.nodes[kids[1]].children.is_empty());
}

#[test]
fn root_totals_equal_sums_of_sizes() {
    let mut a = record(100, &["a", "b"]);
    a.deallocation_size = 100;
    let b = record(7, &["c"]);
    let mut c = record(30, &["a", "d", "e"]);
    c.deallocation_size = 30;
    let tree = Stats { allocations: vec![a, b, c] }.into_tree(CWD).unwrap();
    assert_eq!(tree.nodes[0].allocation, 137);
    assert_eq!(tree.nodes[0].deallocation, 130);
    assert_eq!(tree.nodes[0].allocation_count, 3);
    assert_eq!(tree.nodes[0].deallocation_count, 2);
}

fn totals_by_path(tree: &Tree) -> Vec<(Vec<String>, [usize; 4])> {
    let mut out = Vec::new();
    let mut stack = vec![(0usize, Vec::<String>::new())];
    while let Some((i, path)) = stack.pop() {
        let n = &tree.nodes[i];
        out.push((
            path.clone(),
            [n.allocation, n.allocation_count, n.deallocation, n.deallocation_count],
        ));
        for &c in &n.children {
            let mut p = path.clone();
            p.push(tree.nodes[c].key.fn_name.clone());
            stack.push((c, p));
        }
    }
    out.sort();
    out
}

#[test]
fn permuted_records_give_isomorphic_trees() {
    let mut x = record(10, &["a", "b", "c"]);
    x.deallocation_size = 10;
    let y = record(20, &["a", "d"]);
    let z = record(40, &["e", "b"]);
    let w = record(80, &["a", "b"]);
    let t1 = Stats { allocations: vec![x.clone(), y.clone(), z.clone(), w.clone()] }
        .into_tree(CWD)
        .unwrap();
    let t2 = Stats { allocations: vec![w, z, x, y] }.into_tree(CWD).unwrap();
    assert_eq!(t1.nodes.len(), t2.nodes.len());
    assert_eq!(totals_by_path(&t1), totals_by_path(&t2));
}

#[test]
fn shared_prefix_gives_one_chain() {
    let tree = Stats {
        allocations: vec![record(5, &["a", "b", "c"]), record(6, &["a", "b", "d", "e"])],
    }
    .into_tree(CWD)
    .unwrap();
    assert_eq!(tree.nodes.len(), 6);
    let a = only_child(&tree, 0);
    let b = only_child(&tree, a);
    assert_eq!(tree.nodes[b].key.fn_name, "b");
    assert_eq!(tree.nodes[b].children.len(), 2);
    assert_eq!(tree.nodes[b].allocation, 11);
}

#[test]
fn single_record_gives_chain_with_leaf_only_direct() {
    let mut r = record(64, &["a", "b", "c"]);
    r.stack.insert(1, FrameInfo { filename: Some("x.rs".to_string()), colno: None, lineno: Some(3), fn_address: Some(0), fn_name: Some("x".to_string()) });
    let tree = Stats { allocations: vec![r] }.into_tree(CWD).unwrap();
    // the frame without a column has no usable call site and is skipped
    assert_eq!(tree.nodes.len(), 4);
    let a = only_child(&tree, 0);
    let b = only_child(&tree, a);
    let c = only_child(&tree, b);
    assert_eq!(tree.nodes[b].key.fn_name, "b");
    for i in [0, a, b, c] {
        assert_eq!(tree.nodes[i].allocation, 64);
        assert_eq!(tree.nodes[i].allocation_count, 1);
    }
}

#[test]
fn frame_without_file_is_the_unknown_site() {
    let mut r = record(8, &["a"]);
    r.stack.push(FrameInfo { filename: None, colno: None, lineno: None, fn_address: None, fn_name: None });
    let tree = Stats { allocations: vec![r] }.into_tree(CWD).unwrap();
    let a = only_child(&tree, 0);
    let u = only_child(&tree, a);
    assert_eq!(tree.nodes[u].key.filename, "<unknown>");
    assert_eq!(tree.nodes[u].key.fn_name, "<unknown>");
    assert_eq!(tree.nodes[u].allocation, 8);
}

#[test]
fn record_without_sites_credits_root() {
    let r = Allocation {
        allocation_size: 12,
        deallocation_size: 0,
        address: 1,
        stack: vec![FrameInfo { filename: Some("a.rs".to_string()), colno: None, lineno: None, fn_address: None, fn_name: None }],
    };
    let tree = Stats { allocations: vec![r] }.into_tree(CWD).unwrap();
    assert_eq!(tree.nodes.len(), 1);
    assert_eq!(tree.nodes[0].allocation, 12);
    assert_eq!(tree.nodes[0].allocation_count, 1);
}

#[test]
fn empty_stats_give_lone_root() {
    let tree = Stats { allocations: vec![] }.into_tree(CWD).unwrap();
    assert_eq!(tree.nodes.len(), 1);
    assert_eq!(tree.nodes[0].key.fn_name, "<root>");
    assert_eq!(tree.nodes[0].allocation, 0);
}

#[test]
fn counts_reach_parent_only_with_bytes() {
    let mut r = record(0, &["a", "b"]);
    r.deallocation_size = 16;
    let tree = Stats { allocations: vec![r] }.into_tree(CWD).unwrap();
    let a = only_child(&tree, 0);
    let b = only_child(&tree, a);
    assert_eq!(tree.nodes[b].allocation_count, 0);
    assert_eq!(tree.nodes[b].deallocation_count, 1);
    assert_eq!(tree.nodes[0].deallocation, 16);
    assert_eq!(tree.nodes[0].deallocation_count, 1);
}

#[test]
fn categories_follow_file_paths() {
    let frames = vec![
        frame("/work/project/src/main.rs", "main"),
        frame("/home/u/.cargo/registry/src/index/dep-1.0/src/lib.rs", "dep"),
        frame("/rustc/abc/library/alloc/src/vec.rs", "vec"),
    ];
    let r = Allocation { allocation_size: 1, deallocation_size: 0, address: 0, stack: frames };
    let tree = Stats { allocations: vec![r] }.into_tree(CWD).unwrap();
    let a = only_child(&tree, 0);
    let b = only_child(&tree, a);
    let c = only_child(&tree, b);
    assert_eq!(tree.nodes[0].category, Category::Unknown);
    assert_eq!(tree.nodes[a].category, Category::Application);
    assert_eq!(tree.nodes[b].category, Category::Deps);
    assert_eq!(tree.nodes[c].category, Category::RustC);
}

#[test]
fn totals_past_usize_are_refused() {
    let stats = Stats { allocations: vec![record(usize::MAX, &["a"]), record(1, &["b"])] };
    assert_eq!(stats.into_tree(CWD).err(), Some(TreeError::TotalsOverflow));
}

#[test]
fn mangled_names_are_demangled_in_keys() {
    let r = Allocation {
        allocation_size: 3,
        deallocation_size: 0,
        address: 0,
        stack: vec![frame("m.rs", "_ZN4core3fmt5write17h0123456789abcdefE")],
    };
    let tree = Stats { allocations: vec![r] }.into_tree(CWD).unwrap();
    let a = only_child(&tree, 0);
    assert_eq!(tree.nodes[a].key.fn_name, "core::fmt::write");
}

#[test]
fn siblings_keep_order_of_first_record() {
    let tree = Stats {
        allocations: vec![
            record(1, &["a", "z"]),
            record(2, &["a", "b"]),
            record(4, &["a", "z"]),
            record(8, &["a", "m"]),
        ],
    }
    .into_tree(CWD)
    .unwrap();
    let a = only_child(&tree, 0);
    let names: Vec<_> = tree.nodes[a]
        .children
        .iter()
        .map(|&c| tree.nodes[c].key.fn_name.clone())
        .collect();
    assert_eq!(names, vec!["z", "b", "m"]);
}

#[test]
fn node_keys_take_the_creating_frame_address() {
    let mut first = record(1, &["a"]);
    first.stack[0].fn_address = Some(0x40);
    let mut second = record(1, &["a"]);
    second.stack[0].fn_address = Some(0x80);
    let tree = Stats { allocations: vec![first, second] }.into_tree(CWD).unwrap();
    let a = only_child(&tree, 0);
    assert_eq!(tree.nodes[0].key.fn_address, 0);
    assert_eq!(tree.nodes[a].key.fn_address, 0x40);
    assert_eq!(tree.nodes[a].allocation, 2);
}
