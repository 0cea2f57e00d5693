use aoit::depends::{next_unqueried, record_query, resolve_depends_root, AptDepends, DepTable};

fn table(entries: &[(&str, &[&str])]) -> DepTable {
    let mut t = DepTable::new();
    for (name, deps) in entries {
        t.insert(
            name.to_string(),
            deps.iter().map(|d| d.to_string()).collect(),
        );
    }
    t
}

#[test]
fn cycle_terminates_and_order_has_no_duplicates() {
    let t = table(&[("a", &["b"]), ("b", &["a"])]);
    let (_tree, order) = resolve_depends_root(&t, "a");
    assert_eq!(order, vec!["a".to_string(), "b".to_string()]);
}

#[test]
fn self_cycle_terminates() {
    let t = table(&[("a", &["a"])]);
    let (tree, order) = resolve_depends_root(&t, "a");
    assert_eq!(order, vec!["a".to_string()]);
    // the cyclic edge is kept as a childless node
    assert_eq!(tree.depends.len(), 1);
    assert_eq!(tree.depends[0].name, "a");
    assert!(tree.depends[0].depends.is_empty());
}

#[test]
fn diamond_queried_once() {
    let t = table(&[("a", &["b", "c"]), ("b", &["d"]), ("c", &["d"]), ("d", &[])]);
    let (tree, order) = resolve_depends_root(&t, "a");
    assert_eq!(
        order,
        vec![
            "a".to_string(),
            "b".to_string(),
            "d".to_string(),
            "c".to_string()
        ]
    );
    // d appears exactly once in the order
    assert_eq!(order.iter().filter(|n| n.as_str() == "d").count(), 1);
    // both b and c keep a tree edge to d, but only the first carries children
    assert_eq!(tree.depends.len(), 2);
    assert_eq!(tree.depends[0].name, "b");
    assert_eq!(tree.depends[0].depends[0].name, "d");
    assert_eq!(tree.depends[1].name, "c");
    assert_eq!(tree.depends[1].depends[0].name, "d");
    assert!(tree.depends[1].depends[0].depends.is_empty());
}

#[test]
fn resolution_is_idempotent() {
    let t = table(&[("a", &["b", "c"]), ("b", &["c"]), ("c", &["a"])]);
    let (tree1, order1) = resolve_depends_root(&t, "a");
    let (tree2, order2) = resolve_depends_root(&t, "a");
    assert_eq!(order1, order2);
    assert_eq!(tree1, tree2);
}

#[test]
fn vim_scenario_order_and_root_first() {
    let t = table(&[("vim", &["vim-common"]), ("vim-common", &[])]);
    let (tree, order) = resolve_depends_root(&t, "vim");
    assert_eq!(order, vec!["vim".to_string(), "vim-common".to_string()]);
    assert_eq!(tree.name, "vim");
    assert_eq!(tree.depends.len(), 1);
    assert_eq!(tree.depends[0].name, "vim-common");
}

#[test]
fn unknown_root_is_a_leaf_and_not_known() {
    let t = table(&[("vim", &["vim-common"])]);
    assert!(!t.contains_name("nonexistent"));
    assert!(t.contains_name("vim"));
    let (tree, order) = resolve_depends_root(&t, "nonexistent");
    assert_eq!(order, vec!["nonexistent".to_string()]);
    assert!(tree.depends.is_empty());
}

#[test]
fn lookup_returns_first_entry() {
    let t = table(&[("a", &["x"]), ("a", &["y"])]);
    assert_eq!(t.lookup("a"), Some(&vec!["x".to_string()]));
    assert_eq!(t.lookup("b"), None);
}

#[test]
fn empty_query_response_records_no_entry() {
    let mut t = DepTable::new();
    record_query(&mut t, "ghost-package".to_string(), "  \n");
    assert!(!t.contains_name("ghost-package"));
    record_query(&mut t, "vim".to_string(), "vim\n  Depends: vim-common\n");
    assert!(t.contains_name("vim"));
    assert_eq!(t.lookup("vim"), Some(&vec!["vim-common".to_string()]));
}

#[test]
fn next_unqueried_walks_the_order_once() {
    let order = vec!["a".to_string(), "b".to_string(), "c".to_string()];
    let mut queried: Vec<String> = Vec::new();
    assert_eq!(next_unqueried(&order, &queried), Some("a".to_string()));
    queried.push("a".to_string());
    queried.push("b".to_string());
    assert_eq!(next_unqueried(&order, &queried), Some("c".to_string()));
    queried.push("c".to_string());
    assert_eq!(next_unqueried(&order, &queried), None);
}

#[test]
fn apt_depends_new_keeps_fields() {
    let leaf = AptDepends::new("leaf", Vec::new());
    let node = AptDepends::new("root", vec![leaf]);
    assert_eq!(node.name, "root");
    assert_eq!(node.depends.len(), 1);
    assert_eq!(node.depends[0].name, "leaf");
}
