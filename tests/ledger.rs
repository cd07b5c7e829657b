use image_authentication::blockchain::{calculate_hash, return_transction, Blockchain, Header};
use image_authentication::merkle_tree::{build_tree, insert_root};
use image_authentication::IntegrityError;

fn strings(v: &[&str]) -> Vec<String> {
    v.iter().map(|s| s.to_string()).collect()
}

#[test]
fn genesis_entry() {
    let chain = Blockchain::new_at(0);
    let blocks = chain.blocks();
    assert_eq!(blocks.len(), 1);
    let h = &blocks[0].header;
    assert_eq!(h.version, 1);
    assert_eq!(h.prev_blockhash, "0");
    assert_eq!(h.merkle_root, "0");
    assert_eq!(h.time, 0);
    assert_eq!(h.nonce, 0);
    assert!(blocks[0].transaction.tx.is_empty());
}

#[test]
fn genesis_entry_now() {
    let chain = Blockchain::new();
    assert_eq!(chain.blocks().len(), 1);
    assert_eq!(chain.blocks()[0].header.merkle_root, "0");
}

#[test]
fn header_hash_is_md5_of_fields() {
    let h = Header {
        version: 1,
        prev_blockhash: "0".to_string(),
        merkle_root: "0".to_string(),
        time: 0,
        nonce: 0,
    };
    assert_eq!(calculate_hash(&h), "b7a782741f667201b54880c925faec4b");
}

#[test]
fn appended_entry_links_to_previous_header() {
    let mut chain = Blockchain::new_at(0);
    chain.add_block_at("root".to_string(), strings(&["h1", "h2"]), 7);
    let blocks = chain.blocks();
    assert_eq!(blocks.len(), 2);
    assert_eq!(blocks[1].header.prev_blockhash, "b7a782741f667201b54880c925faec4b");
    assert_eq!(blocks[1].header.merkle_root, "root");
    assert_eq!(blocks[1].header.time, 7);
    assert_eq!(blocks[1].header.version, 1);
    assert_eq!(blocks[1].transaction.tx, strings(&["h1", "h2"]));
    assert_eq!(calculate_hash(&blocks[1].header), "e20f161872c3d3cb9b9cb930f2dfa6a8");
}

#[test]
fn add_block_keeps_earlier_entries() {
    let mut chain = Blockchain::new();
    chain.add_block("r1".to_string(), strings(&["a"]));
    chain.add_block("r2".to_string(), strings(&["b"]));
    let blocks = chain.blocks();
    assert_eq!(blocks.len(), 3);
    assert_eq!(blocks[1].header.merkle_root, "r1");
    assert_eq!(blocks[2].header.merkle_root, "r2");
    assert_eq!(blocks[2].header.prev_blockhash, calculate_hash(&blocks[1].header));
}

#[test]
fn transactions_found_by_header_hash() {
    let mut chain = Blockchain::new_at(0);
    chain.add_block_at("root".to_string(), strings(&["h1", "h2"]), 7);
    let hash = calculate_hash(&chain.blocks()[1].header);
    assert_eq!(return_transction(&chain, &hash), strings(&["h1", "h2"]));
    assert!(return_transction(&chain, "b7a782741f667201b54880c925faec4b").is_empty());
    assert!(return_transction(&chain, "no such hash").is_empty());
}

#[test]
fn insert_root_anchors_tree_root() {
    let mut chain = Blockchain::new();
    let leaves = strings(&["a", "b", "c", "d"]);
    assert_eq!(insert_root(leaves.clone(), &mut chain), Ok(()));
    let blocks = chain.blocks();
    assert_eq!(blocks.len(), 2);
    assert_eq!(
        blocks[1].header.merkle_root,
        "14ede5e8e97ad9372327728f5099b95604a39593cac3bd38a343ad76205213e7"
    );
    assert_eq!(blocks[1].transaction.tx, leaves);
    let tree = build_tree(leaves);
    assert_eq!(Some(blocks[1].header.merkle_root.clone()), tree.root_hex());
}

#[test]
fn insert_root_refuses_no_leaves() {
    let mut chain = Blockchain::new();
    assert_eq!(insert_root(Vec::new(), &mut chain), Err(IntegrityError::EmptyLeaves));
    assert_eq!(chain.blocks().len(), 1);
}
