use hex_trie::nibbles::{hex_digit, hex_to_nibbles};
use hex_trie::node::Node;

fn text(s: &str) -> String {
    String::from(s)
}

#[test]
fn round_trip_returns_the_inserted_value() {
    let mut trie = Node::new();
    trie.insert("a1f", text("leaf-A1F"));
    assert_eq!(trie.get("a1f"), Some(&text("leaf-A1F")));
}

#[test]
fn overwrite_keeps_only_the_latest_value() {
    let mut trie = Node::new();
    trie.insert("b0", text("first"));
    trie.insert("b0", text("second"));
    assert_eq!(trie.get("b0"), Some(&text("second")));
}

#[test]
fn absent_key_is_not_found() {
    let mut trie = Node::new();
    assert_eq!(trie.get("a1"), None);
    trie.insert("a1f", text("leaf-A1F"));
    assert_eq!(trie.get("a1"), None);
    assert_eq!(trie.get("a"), None);
    assert_eq!(trie.get("a1f0"), None);
    assert_eq!(trie.get("b"), None);
}

#[test]
fn delete_removes_the_value() {
    let mut trie = Node::new();
    trie.insert("00", text("leaf-00"));
    trie.insert("af", text("leaf-AF"));
    trie.delete("00");
    assert_eq!(trie.get("00"), None);
    assert_eq!(trie.get("af"), Some(&text("leaf-AF")));
}

#[test]
fn deleting_every_key_leaves_an_empty_trie() {
    let mut trie = Node::new();
    trie.insert("a1f", text("x"));
    trie.insert("a1e", text("y"));
    trie.delete("a1f");
    assert_ne!(trie.render(), "(root)\n");
    trie.delete("b0");
    assert_ne!(trie.render(), "(root)\n");
    trie.delete("a1e");
    assert_eq!(trie.render(), "(root)\n");
    trie.delete("a1e");
    assert_eq!(trie.render(), "(root)\n");
}

#[test]
fn delete_yields_no_value() {
    let mut trie = Node::new();
    trie.insert("a1f", text("x"));
    let nothing: () = trie.delete("a1f");
    assert_eq!(nothing, ());
    let nothing: () = trie.delete("a1f");
    assert_eq!(nothing, ());
}

#[test]
fn delete_of_a_key_never_inserted_changes_nothing() {
    let mut trie = Node::new();
    trie.insert("a1e", text("leaf-A1E"));
    trie.delete("a1f");
    trie.delete("a");
    trie.delete("a1e0");
    trie.delete("");
    assert_eq!(trie.get("a1e"), Some(&text("leaf-A1E")));
}

#[test]
fn delete_twice_is_delete_once() {
    let mut trie = Node::new();
    trie.insert("a1f", text("leaf-A1F"));
    trie.insert("b0", text("leaf-B0"));
    trie.delete("a1f");
    trie.delete("a1f");
    assert_eq!(trie.get("a1f"), None);
    assert_eq!(trie.get("b0"), Some(&text("leaf-B0")));
}

#[test]
fn non_interference_between_sibling_keys() {
    let mut trie = Node::new();
    trie.insert("a1f", text("leaf-A1F"));
    trie.insert("a1e", text("leaf-A1E"));
    trie.delete("a1f");
    assert_eq!(trie.get("a1f"), None);
    assert_eq!(trie.get("a1e"), Some(&text("leaf-A1E")));
}

#[test]
fn non_hex_characters_are_dropped() {
    let mut trie = Node::new();
    trie.insert("a1g", text("v"));
    assert_eq!(trie.get("a1"), Some(&text("v")));
    assert_eq!(trie.get("a-1"), Some(&text("v")));
    assert_eq!(trie.get("xA1z"), Some(&text("v")));
    trie.delete("a1~");
    assert_eq!(trie.get("a1g"), None);
}

#[test]
fn empty_key_stores_on_the_root() {
    let mut trie = Node::new();
    trie.insert_nibbles(Vec::new(), text("root-value"));
    assert_eq!(trie.get(""), Some(&text("root-value")));
    assert_eq!(trie.get("zz"), Some(&text("root-value")));
    trie.insert("", text("again"));
    assert_eq!(trie.get(""), Some(&text("again")));
}

#[test]
fn insert_nibbles_agrees_with_insert() {
    let mut trie = Node::new();
    trie.insert_nibbles(vec![10, 1, 15], text("leaf"));
    assert_eq!(trie.get("a1f"), Some(&text("leaf")));
    assert_eq!(trie.get("A1F"), Some(&text("leaf")));
    trie.insert_nibbles(vec![0, 0], text("zeros"));
    assert_eq!(trie.get("00"), Some(&text("zeros")));
    assert_eq!(trie.get("0"), None);
}

#[test]
fn hex_to_nibbles_decodes_every_digit() {
    assert_eq!(
        hex_to_nibbles("0123456789abcdef"),
        vec![0, 1, 2, 3, 4, 5, 6, 7, 8, 9, 10, 11, 12, 13, 14, 15]
    );
    assert_eq!(hex_to_nibbles("ABCDEF"), vec![10, 11, 12, 13, 14, 15]);
    assert_eq!(hex_to_nibbles("7abf"), vec![7, 10, 11, 15]);
}

#[test]
fn hex_to_nibbles_skips_what_is_no_digit() {
    assert_eq!(hex_to_nibbles(""), Vec::<usize>::new());
    assert_eq!(hex_to_nibbles("xyz- "), Vec::<usize>::new());
    assert_eq!(hex_to_nibbles("a1g"), vec![10, 1]);
    assert_eq!(hex_to_nibbles("0x7A"), vec![0, 7, 10]);
    assert_eq!(hex_to_nibbles("g/:@G`"), Vec::<usize>::new());
    assert_eq!(hex_to_nibbles("é9"), vec![9]);
}

#[test]
fn concrete_scenario() {
    let mut trie = Node::new();
    trie.insert("a1f", text("leaf-A1F"));
    trie.insert("a1e", text("leaf-A1E"));
    trie.insert("b0", text("leaf-B0"));
    assert_eq!(trie.get("a1e"), Some(&text("leaf-A1E")));
    assert_eq!(trie.get("a1d"), None);
    trie.delete("a1f");
    assert_eq!(trie.get("a1e"), Some(&text("leaf-A1E")));
    assert_eq!(trie.get("a1f"), None);
    assert_eq!(trie.get("b0"), Some(&text("leaf-B0")));
}

#[test]
fn hex_digit_decodes_both_cases_and_nothing_else() {
    assert_eq!(hex_digit('0'), Some(0));
    assert_eq!(hex_digit('9'), Some(9));
    assert_eq!(hex_digit('a'), Some(10));
    assert_eq!(hex_digit('f'), Some(15));
    assert_eq!(hex_digit('A'), Some(10));
    assert_eq!(hex_digit('F'), Some(15));
    assert_eq!(hex_digit('g'), None);
    assert_eq!(hex_digit('G'), None);
    assert_eq!(hex_digit('/'), None);
    assert_eq!(hex_digit(':'), None);
    assert_eq!(hex_digit('@'), None);
    assert_eq!(hex_digit('`'), None);
    assert_eq!(hex_digit(' '), None);
    assert_eq!(hex_digit('\u{ff11}'), None);
}

#[test]
fn long_keys_are_walked_one_level_per_nibble() {
    let mut trie = Node::new();
    let long: String = "0123456789abcdef".repeat(64);
    let shorter = &long[..long.len() - 1];
    trie.insert(&long, text("deep"));
    assert_eq!(trie.get(&long), Some(&text("deep")));
    assert_eq!(trie.get(shorter), None);
    trie.insert(shorter, text("less deep"));
    trie.delete(&long);
    assert_eq!(trie.get(&long), None);
    assert_eq!(trie.get(shorter), Some(&text("less deep")));
    trie.delete(shorter);
    assert_eq!(trie.render(), "(root)\n");
}

#[test]
fn prefix_of_a_stored_key_holds_no_value() {
    let mut trie = Node::new();
    trie.insert("a1f", text("leaf-A1F"));
    trie.insert("a", text("short"));
    assert_eq!(trie.get("a1"), None);
    assert_eq!(trie.get("a"), Some(&text("short")));
    assert_eq!(trie.get("a1f"), Some(&text("leaf-A1F")));
}

#[test]
fn default_is_an_empty_trie() {
    let mut trie = Node::default();
    assert_eq!(trie.get(""), None);
    trie.delete("a");
    assert_eq!(trie.render(), "(root)\n");
    trie.insert("0", text("zero"));
    assert_eq!(trie.get("0"), Some(&text("zero")));
}
