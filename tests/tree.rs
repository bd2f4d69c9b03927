use category_tree::TreeNode;

// Amounts are in cents.
fn example_tree() -> TreeNode {
    let mut root = TreeNode::new("Financeiro", 0);

    let mut receitas = TreeNode::new("Receitas", 0);
    receitas.add_children(TreeNode::new("Salário", 500_000));
    receitas.add_children(TreeNode::new("Investimentos", 200_000));

    let mut despesas = TreeNode::new("Despesas", 0);
    despesas.add_children(TreeNode::new("Aluguel", -120_000));
    despesas.add_children(TreeNode::new("Supermercado", -80_000));

    root.add_children(receitas);
    root.add_children(despesas);
    root
}

#[test]
fn new_node_is_a_leaf() {
    let n = TreeNode::new("", -7);
    assert_eq!(n.name, "");
    assert_eq!(n.amount, -7);
    assert!(n.children.is_empty());
}

#[test]
fn leaf_total_is_its_amount() {
    assert_eq!(TreeNode::new("a", 1234).calculate_total(), Some(1234));
    assert_eq!(TreeNode::new("b", 0).calculate_total(), Some(0));
    assert_eq!(TreeNode::new("c", i64::MIN).calculate_total(), Some(i64::MIN));
    assert_eq!(TreeNode::new("d", i64::MAX).calculate_total(), Some(i64::MAX));
}

#[test]
fn total_is_amount_plus_children_totals() {
    let mut root = TreeNode::new("root", 10);
    let mut mid = TreeNode::new("mid", 100);
    mid.add_children(TreeNode::new("x", 1000));
    mid.add_children(TreeNode::new("y", -3));
    root.add_children(mid);
    root.add_children(TreeNode::new("z", 5));
    let child_totals: i64 = root
        .children
        .iter()
        .map(|c| c.calculate_total().unwrap())
        .sum();
    assert_eq!(root.children[0].calculate_total(), Some(1097));
    assert_eq!(root.calculate_total(), Some(10 + child_totals));
    assert_eq!(root.calculate_total(), Some(1112));
}

#[test]
fn example_tree_total() {
    let root = example_tree();
    assert_eq!(root.calculate_total(), Some(500_000));
}

#[test]
fn example_tree_finds_rent() {
    let root = example_tree();
    let rent = root.get_item("Aluguel").expect("rent is in the tree");
    assert_eq!(rent.name, "Aluguel");
    assert_eq!(rent.amount, -120_000);
    assert!(rent.children.is_empty());
}

#[test]
fn example_tree_misses_unknown_name() {
    let root = example_tree();
    assert!(root.get_item("Nonexistent").is_none());
}

#[test]
fn find_returns_root_when_it_matches() {
    let root = example_tree();
    let found = root.get_item("Financeiro").unwrap();
    assert_eq!(found.children.len(), 2);
    assert_eq!(found.amount, 0);
}

#[test]
fn find_attached_child() {
    let mut parent = TreeNode::new("parent", 1);
    parent.add_children(TreeNode::new("first", 2));
    parent.add_children(TreeNode::new("child", 42));
    let found = parent.get_item("child").unwrap();
    assert_eq!(found.name, "child");
    assert_eq!(found.amount, 42);
    assert!(found.children.is_empty());
}

#[test]
fn find_prefers_first_in_preorder() {
    // "dup" appears deep in the first subtree and directly under the root;
    // pre-order reaches the deep one first.
    let mut root = TreeNode::new("root", 0);
    let mut a = TreeNode::new("a", 0);
    let mut b = TreeNode::new("b", 0);
    b.add_children(TreeNode::new("dup", 1));
    a.add_children(b);
    root.add_children(a);
    root.add_children(TreeNode::new("dup", 2));
    assert_eq!(root.get_item("dup").unwrap().amount, 1);
}

#[test]
fn find_prefers_earlier_sibling() {
    let mut root = TreeNode::new("root", 0);
    root.add_children(TreeNode::new("same", 3));
    root.add_children(TreeNode::new("same", 4));
    assert_eq!(root.get_item("same").unwrap().amount, 3);
}

#[test]
fn find_on_empty_name() {
    let mut root = TreeNode::new("root", 0);
    root.add_children(TreeNode::new("", 9));
    assert_eq!(root.get_item("").unwrap().amount, 9);
    assert!(TreeNode::new("x", 0).get_item("").is_none());
}

#[test]
fn find_is_exact_not_prefix() {
    let mut root = TreeNode::new("root", 0);
    root.add_children(TreeNode::new("Aluguel", 9));
    assert!(root.get_item("Alug").is_none());
    assert!(root.get_item("aluguel").is_none());
    assert!(root.get_item("Aluguel!").is_none());
}

#[test]
fn total_none_when_it_overflows() {
    let mut root = TreeNode::new("root", i64::MAX);
    root.add_children(TreeNode::new("one", 1));
    assert_eq!(root.calculate_total(), None);
}

#[test]
fn total_none_when_a_subtree_overflows() {
    // The whole tree sums to 0, but one subtree does not fit.
    let mut root = TreeNode::new("root", 1);
    let mut big = TreeNode::new("big", i64::MAX);
    big.add_children(TreeNode::new("one", 1));
    root.add_children(big);
    root.add_children(TreeNode::new("neg", i64::MIN));
    assert_eq!(root.calculate_total(), None);
}

#[test]
fn total_fits_with_large_intermediate_sums() {
    // Partial sums leave the i64 range, but every subtree total fits.
    let mut root = TreeNode::new("root", i64::MAX);
    root.add_children(TreeNode::new("a", i64::MAX));
    root.add_children(TreeNode::new("b", i64::MIN));
    root.add_children(TreeNode::new("c", i64::MIN));
    assert_eq!(root.calculate_total(), Some(-2));
}

#[test]
fn add_children_appends_in_order() {
    let mut root = TreeNode::new("root", 5);
    root.add_children(TreeNode::new("a", 1));
    root.add_children(TreeNode::new("b", 2));
    assert_eq!(root.name, "root");
    assert_eq!(root.amount, 5);
    let names: Vec<&str> = root.children.iter().map(|c| c.name.as_str()).collect();
    assert_eq!(names, vec!["a", "b"]);
    assert_eq!(root.calculate_total(), Some(8));
}
