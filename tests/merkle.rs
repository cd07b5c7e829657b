use image_authentication::digest::{leaf_hash, payload_fingerprint};
use image_authentication::merkle_tree::{build_tree, compare_merkle_trees, image_verification, ri_array, MerkleTree};
use image_authentication::IntegrityError;

fn strings(v: &[&str]) -> Vec<String> {
    v.iter().map(|s| s.to_string()).collect()
}

fn hex(b: &[u8]) -> String {
    b.iter().map(|x| format!("{:02x}", x)).collect()
}

#[test]
fn leaf_count_equals_number_of_leaves() {
    for n in 1..20usize {
        let leaves: Vec<String> = (0..n).map(|i| format!("leaf{}", i)).collect();
        let tree = build_tree(leaves.clone());
        assert_eq!(tree.leaf_count(), n);
        let again = build_tree(leaves);
        assert_eq!(again.leaf_count(), n);
        assert_eq!(tree.root_digest(), again.root_digest());
    }
}

#[test]
fn empty_tree_has_no_root() {
    let tree = build_tree(Vec::new());
    assert_eq!(tree.leaf_count(), 0);
    assert_eq!(tree.root_digest(), None);
    assert_eq!(tree.root_hex(), None);
    assert_eq!(tree.size(), 0);
    assert!(tree.traverse().is_empty());
    assert_eq!(tree.print_tree(), "");
}

#[test]
fn single_leaf_root_is_leaf_digest() {
    let tree = MerkleTree::new(vec!["a"]);
    assert_eq!(
        tree.root_hex().unwrap(),
        "ca978112ca1bbdcafac231b39a23dc4da786eff8147c4e72b9807785afee48bb"
    );
    assert_eq!(tree.size(), 1);
}

#[test]
fn two_leaf_root() {
    let tree = MerkleTree::new(vec!["a", "b"]);
    assert_eq!(
        tree.root_hex().unwrap(),
        "e5a01fee14e0ed5c48714f22180f25ad8365b53f9779f79dc4a3d7e93963f94a"
    );
}

#[test]
fn odd_level_pairs_last_node_with_itself() {
    let tree = MerkleTree::new(vec!["a", "b", "c"]);
    assert_eq!(
        tree.root_hex().unwrap(),
        "d31a37ef6ac14a2db1470c4316beb5592e6afd4465022339adafda76a18ffabe"
    );
    assert_eq!(tree.leaf_count(), 3);
    assert_eq!(tree.size(), 7);
    let order: Vec<String> = tree.traverse().iter().map(|d| hex(d)[..8].to_string()).collect();
    assert_eq!(
        order,
        vec!["d31a37ef", "e5a01fee", "ca978112", "3e23e816", "a3e333fb", "2e7d2c03", "2e7d2c03"]
    );
}

#[test]
fn four_leaf_root() {
    let tree = build_tree(strings(&["a", "b", "c", "d"]));
    assert_eq!(
        tree.root_hex().unwrap(),
        "14ede5e8e97ad9372327728f5099b95604a39593cac3bd38a343ad76205213e7"
    );
}

#[test]
fn new_and_build_tree_agree() {
    let a = MerkleTree::new(vec!["x", "y", "z", "w", "v"]);
    let b = build_tree(strings(&["x", "y", "z", "w", "v"]));
    assert_eq!(a.root_digest(), b.root_digest());
}

#[test]
fn payload_tree_matches_text_tree() {
    let payloads: Vec<Vec<u8>> = vec![b"a".to_vec(), b"b".to_vec(), b"c".to_vec()];
    let a = MerkleTree::from_payloads(&payloads);
    let b = MerkleTree::new(vec!["a", "b", "c"]);
    assert_eq!(a.root_digest(), b.root_digest());
}

#[test]
fn print_tree_indents_by_depth() {
    let tree = MerkleTree::new(vec!["a", "b", "c"]);
    let text = tree.print_tree();
    let lines: Vec<&str> = text.lines().collect();
    assert_eq!(lines.len(), 7);
    assert_eq!(lines[0], tree.root_hex().unwrap());
    assert!(lines[1].starts_with("  e5a01fee"));
    assert!(lines[2].starts_with("    ca978112"));
    assert!(lines[4].starts_with("  a3e333fb"));
    assert!(lines[5].starts_with("    2e7d2c03"));
    assert_eq!(lines[5], lines[6]);
    assert!(text.ends_with('\n'));
}

#[test]
fn root_hex_matches_root_digest() {
    let tree = MerkleTree::new(vec!["p", "q", "r", "s"]);
    let d = tree.root_digest().unwrap();
    assert_eq!(d.len(), 32);
    assert_eq!(hex(&d), tree.root_hex().unwrap());
    assert_eq!(tree.traverse()[0], d);
}

#[test]
fn self_diff_is_all_zero() {
    for n in 1..17usize {
        let leaves: Vec<String> = (0..n).map(|i| format!("block{}", i)).collect();
        let t = build_tree(leaves.clone());
        let u = build_tree(leaves);
        assert_eq!(compare_merkle_trees(&t, &u).unwrap(), vec![0u32; n]);
    }
}

#[test]
fn one_changed_leaf_flags_its_position() {
    let base = strings(&["a", "b", "c", "d", "e", "f", "g", "h"]);
    for k in 0..base.len() {
        let mut changed = base.clone();
        changed[k] = "changed".to_string();
        let t = build_tree(base.clone());
        let u = build_tree(changed);
        let mut expected = vec![0u32; base.len()];
        expected[k] = 1;
        assert_eq!(compare_merkle_trees(&t, &u).unwrap(), expected);
    }
}

#[test]
fn one_changed_leaf_with_odd_count() {
    let base = strings(&["a", "b", "c", "d", "e"]);
    for k in 0..base.len() {
        let mut changed = base.clone();
        changed[k] = "Z".to_string();
        let mut expected = vec![0u32; base.len()];
        expected[k] = 1;
        let r = compare_merkle_trees(&build_tree(base.clone()), &build_tree(changed)).unwrap();
        assert_eq!(r, expected);
    }
}

#[test]
fn scenario_four_leaves_third_changed() {
    let t = build_tree(strings(&["a", "b", "c", "d"]));
    let u = build_tree(strings(&["a", "b", "C", "d"]));
    assert_eq!(compare_merkle_trees(&t, &u).unwrap(), vec![0, 0, 1, 0]);
}

#[test]
fn scenario_three_identical_leaves() {
    let t = build_tree(strings(&["a", "b", "c"]));
    let u = build_tree(strings(&["a", "b", "c"]));
    assert_eq!(compare_merkle_trees(&t, &u).unwrap(), vec![0, 0, 0]);
}

#[test]
fn several_changes_are_flagged() {
    let t = build_tree(strings(&["a", "b", "c", "d", "e", "f"]));
    let u = build_tree(strings(&["A", "b", "c", "D", "e", "F"]));
    assert_eq!(compare_merkle_trees(&t, &u).unwrap(), vec![1, 0, 0, 1, 0, 1]);
}

#[test]
fn different_leaf_counts_are_refused() {
    let t = build_tree(strings(&["a", "b", "c"]));
    let u = build_tree(strings(&["a", "b"]));
    assert_eq!(compare_merkle_trees(&t, &u), Err(IntegrityError::LeafCountMismatch));
    let e = build_tree(Vec::new());
    assert_eq!(compare_merkle_trees(&t, &e), Err(IntegrityError::LeafCountMismatch));
}

#[test]
fn empty_trees_compare_to_empty_vector() {
    let e = build_tree(Vec::new());
    let f = build_tree(Vec::new());
    assert_eq!(compare_merkle_trees(&e, &f), Ok(Vec::new()));
}

#[test]
fn image_verification_compares_original_with_fake() {
    let original = build_tree(strings(&["a", "b", "c", "d"]));
    let fake = build_tree(strings(&["a", "x", "c", "d"]));
    assert_eq!(image_verification(fake, original), Ok(vec![0, 1, 0, 0]));
}

#[test]
fn leaf_hash_is_sha256() {
    assert_eq!(
        hex(&leaf_hash(b"abc")),
        "ba7816bf8f01cfea414140de5dae2223b00361a396177a9cb410ff61f20015ad"
    );
    assert_eq!(
        payload_fingerprint(b"abc"),
        "ba7816bf8f01cfea414140de5dae2223b00361a396177a9cb410ff61f20015ad"
    );
}

#[test]
fn ri_array_is_the_tamper_vector() {
    let t = build_tree(strings(&["a", "b", "c", "d"]));
    let u = build_tree(strings(&["a", "b", "C", "d"]));
    assert_eq!(ri_array(&t, &u), vec![0, 0, 1, 0]);
    let v = build_tree(strings(&["a", "b", "c"]));
    let w = build_tree(strings(&["a", "b", "c"]));
    assert_eq!(ri_array(&v, &w), vec![0, 0, 0]);
    let x = build_tree(strings(&["a", "b", "x"]));
    assert_eq!(ri_array(&v, &x), vec![0, 0, 1]);
    let e = build_tree(Vec::new());
    assert!(ri_array(&e, &build_tree(Vec::new())).is_empty());
}

#[test]
fn root_hex_is_sixty_four_lowercase_digits() {
    let tree = build_tree(strings(&["a", "b", "c", "d", "e"]));
    let h = tree.root_hex().unwrap();
    assert_eq!(h.len(), 64);
    assert!(h.chars().all(|c| c.is_ascii_digit() || ('a'..='f').contains(&c)));
}
