use hex_trie::node::Node;

fn text(s: &str) -> String {
    String::from(s)
}

fn sample() -> Node {
    let mut trie = Node::new();
    trie.insert("a1f", text("leaf-A1F"));
    trie.insert("a1e", text("leaf-A1E"));
    trie.insert("b0", text("leaf-B0"));
    trie.insert("00", text("leaf-00"));
    trie.insert("af", text("leaf-AF"));
    trie
}

#[test]
fn empty_trie_renders_the_root_alone() {
    assert_eq!(Node::new().render(), "(root)\n");
    assert_eq!(Node::default().render(), "(root)\n");
}

#[test]
fn root_value_shows_on_the_root_line() {
    let mut trie = Node::new();
    trie.insert("", text("top"));
    assert_eq!(trie.render(), "(root) = top\n");
}

#[test]
fn single_key_renders_one_line_per_nibble() {
    let mut trie = Node::new();
    trie.insert("a1f", text("leaf-A1F"));
    assert_eq!(
        trie.render(),
        "(root)\n\
         └── a\n\
         \u{20}   └── 1\n\
         \u{20}       └── f = leaf-A1F\n"
    );
}

#[test]
fn siblings_are_drawn_in_nibble_order_with_connectors() {
    assert_eq!(
        sample().render(),
        "(root)\n\
         ├── 0\n\
         │   └── 0 = leaf-00\n\
         ├── a\n\
         │   ├── 1\n\
         │   │   ├── e = leaf-A1E\n\
         │   │   └── f = leaf-A1F\n\
         │   └── f = leaf-AF\n\
         └── b\n\
         \u{20}   └── 0 = leaf-B0\n"
    );
}

#[test]
fn every_nibble_has_its_own_digit() {
    let mut trie = Node::new();
    let mut n: usize = 0;
    while n < 16 {
        trie.insert_nibbles(vec![n], format!("v{}", n));
        n += 1;
    }
    assert_eq!(
        trie.render(),
        "(root)\n\
         ├── 0 = v0\n\
         ├── 1 = v1\n\
         ├── 2 = v2\n\
         ├── 3 = v3\n\
         ├── 4 = v4\n\
         ├── 5 = v5\n\
         ├── 6 = v6\n\
         ├── 7 = v7\n\
         ├── 8 = v8\n\
         ├── 9 = v9\n\
         ├── a = v10\n\
         ├── b = v11\n\
         ├── c = v12\n\
         ├── d = v13\n\
         ├── e = v14\n\
         └── f = v15\n"
    );
}

#[test]
fn inner_node_with_a_value_shows_it() {
    let mut trie = Node::new();
    trie.insert("a", text("short"));
    trie.insert("a1", text("long"));
    assert_eq!(
        trie.render(),
        "(root)\n\
         └── a = short\n\
         \u{20}   └── 1 = long\n"
    );
}

#[test]
fn pruning_leaves_only_the_root() {
    let mut trie = Node::new();
    trie.insert("a1f", text("leaf-A1F"));
    trie.delete("a1f");
    assert_eq!(trie.render(), "(root)\n");
}

#[test]
fn delete_keeps_the_shared_prefix_of_a_sibling() {
    let mut trie = Node::new();
    trie.insert("a1f", text("leaf-A1F"));
    trie.insert("a1e", text("leaf-A1E"));
    trie.delete("a1f");
    assert_eq!(
        trie.render(),
        "(root)\n\
         └── a\n\
         \u{20}   └── 1\n\
         \u{20}       └── e = leaf-A1E\n"
    );
}

#[test]
fn delete_of_an_inner_value_keeps_the_node_for_its_children() {
    let mut trie = Node::new();
    trie.insert("a", text("short"));
    trie.insert("a1", text("long"));
    trie.delete("a");
    assert_eq!(trie.get("a"), None);
    assert_eq!(
        trie.render(),
        "(root)\n\
         └── a\n\
         \u{20}   └── 1 = long\n"
    );
}

#[test]
fn delete_of_a_leaf_keeps_a_valued_ancestor() {
    let mut trie = Node::new();
    trie.insert("a", text("short"));
    trie.insert("a1", text("long"));
    trie.delete("a1");
    assert_eq!(trie.render(), "(root)\n└── a = short\n");
}

#[test]
fn delete_of_a_missing_key_leaves_the_diagram() {
    let mut trie = sample();
    let before = trie.render();
    trie.delete("a1d");
    trie.delete("a");
    trie.delete("c");
    trie.delete("a1f0");
    assert_eq!(trie.render(), before);
}

#[test]
fn scenario_diagram_after_deleting_both_leaves() {
    let mut trie = sample();
    trie.delete("a1f");
    assert_eq!(
        trie.render(),
        "(root)\n\
         ├── 0\n\
         │   └── 0 = leaf-00\n\
         ├── a\n\
         │   ├── 1\n\
         │   │   └── e = leaf-A1E\n\
         │   └── f = leaf-AF\n\
         └── b\n\
         \u{20}   └── 0 = leaf-B0\n"
    );
    trie.delete("a1e");
    assert_eq!(
        trie.render(),
        "(root)\n\
         ├── 0\n\
         │   └── 0 = leaf-00\n\
         ├── a\n\
         │   └── f = leaf-AF\n\
         └── b\n\
         \u{20}   └── 0 = leaf-B0\n"
    );
}

#[test]
fn clone_is_a_trie_of_its_own() {
    let mut trie = sample();
    let copy = trie.clone();
    trie.delete("b0");
    trie.insert("c", text("new"));
    assert_eq!(copy.render(), sample().render());
    assert_eq!(copy.get("b0"), Some(&text("leaf-B0")));
    assert_eq!(copy.get("c"), None);
    assert_eq!(trie.get("b0"), None);
}

#[test]
fn upper_case_keys_render_in_lower_case() {
    let mut trie = Node::new();
    trie.insert("AF", text("x"));
    assert_eq!(
        trie.render(),
        "(root)\n\
         └── a\n\
         \u{20}   └── f = x\n"
    );
}
