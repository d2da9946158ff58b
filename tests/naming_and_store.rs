use rfsd::digest::calculate_xxh3_128;
use rfsd::naming::fingerprint_hex;
use rfsd::store::{
    block_file_name, block_path, collision_index, collision_indices, get_block_dir, place_block,
    indices_are_positive, BlockPlacement, ChainEntry, RwError,
};

const FP: u128 = 0x0123456789abcdef_fedcba9876543210;

#[test]
fn digest_matches_xxh3_128() {
    let data = b"hello, blocks";
    assert_eq!(calculate_xxh3_128(data), xxhash_rust::xxh3::xxh3_128(data));
    assert_eq!(calculate_xxh3_128(&[]), xxhash_rust::xxh3::xxh3_128(&[]));
    assert_eq!(calculate_xxh3_128(b"abc"), calculate_xxh3_128(b"abc"));
    assert_ne!(calculate_xxh3_128(b"abc"), calculate_xxh3_128(b"abd"));
}

#[test]
fn hex_is_zero_padded_lowercase() {
    assert_eq!(fingerprint_hex(0), "0".repeat(32));
    assert_eq!(fingerprint_hex(u128::MAX), "f".repeat(32));
    assert_eq!(fingerprint_hex(0xabc), format!("{}abc", "0".repeat(29)));
    assert_eq!(fingerprint_hex(FP), "0123456789abcdeffedcba9876543210");
    assert_eq!(fingerprint_hex(FP), format!("{:032x}", FP));
}

#[test]
fn block_dir_uses_first_three_digit_pairs() {
    assert_eq!(get_block_dir("/pool", FP), "/pool/blocks/01/23/45");
    assert_eq!(get_block_dir("/srv/pool_a", 0), "/srv/pool_a/blocks/00/00/00");
}

#[test]
fn block_names_and_paths() {
    assert_eq!(block_file_name(FP, 1), "0123456789abcdeffedcba9876543210-1");
    assert_eq!(block_file_name(FP, 4294967295), "0123456789abcdeffedcba9876543210-4294967295");
    assert_eq!(block_file_name(0, 10), format!("{}-10", "0".repeat(32)));
    assert_eq!(
        block_path("/pool", FP, 2),
        "/pool/blocks/01/23/45/0123456789abcdeffedcba9876543210-2"
    );
}

#[test]
fn collision_index_parses_chain_names() {
    let hex = fingerprint_hex(FP);
    assert_eq!(collision_index(&format!("{}-1", hex), FP), Some(1));
    assert_eq!(collision_index(&format!("{}-12", hex), FP), Some(12));
    assert_eq!(collision_index(&format!("{}-4294967295", hex), FP), Some(u32::MAX));
    assert_eq!(collision_index(&format!("{}-4294967296", hex), FP), None);
    assert_eq!(collision_index(&format!("{}-", hex), FP), None);
    assert_eq!(collision_index(&format!("{}-x1", hex), FP), None);
    assert_eq!(collision_index(&format!("{}-1.tmp", hex), FP), None);
    assert_eq!(collision_index(&format!("{}1", hex), FP), None);
    assert_eq!(collision_index(&format!("{}-3", fingerprint_hex(FP + 1)), FP), None);
    assert_eq!(collision_index("", FP), None);
    assert_eq!(collision_index(&format!("{}-0", hex), FP), None);
    assert_eq!(collision_index(&format!("{}-07", hex), FP), None);
    assert_eq!(collision_index(&format!("{}-00", hex), FP), None);
    assert_eq!(collision_index(&format!("{}-10", hex), FP), Some(10));
}

#[test]
fn collision_indices_skip_foreign_and_malformed_names() {
    let hex = fingerprint_hex(FP);
    let names = vec![
        format!("{}-2", hex),
        "unrelated".to_string(),
        format!("{}-junk", hex),
        format!("{}-7", hex),
        format!("{}-1", fingerprint_hex(7)),
    ];
    assert_eq!(collision_indices(&names, FP), vec![2, 7]);
    assert_eq!(collision_indices(&Vec::new(), FP), Vec::<u32>::new());
}

fn entry(index: u32, data: &[u8]) -> ChainEntry {
    ChainEntry { index, data: data.to_vec() }
}

#[test]
fn first_block_of_a_fingerprint_gets_index_one() {
    let r = place_block(&Vec::new(), FP, b"abc").unwrap();
    assert_eq!(r, BlockPlacement::New(1));
    assert_eq!(r.index(), 1);
}

#[test]
fn equal_bytes_reuse_the_existing_index() {
    let chain = vec![entry(1, b"abc")];
    assert_eq!(place_block(&chain, FP, b"abc").unwrap(), BlockPlacement::Existing(1));
}

#[test]
fn colliding_bytes_extend_the_chain() {
    let chain = vec![entry(3, b"aaa"), entry(1, b"bbb")];
    assert_eq!(place_block(&chain, FP, b"ccc").unwrap(), BlockPlacement::New(4));
    assert_eq!(place_block(&chain, FP, b"bbb").unwrap(), BlockPlacement::Existing(1));
    assert_eq!(place_block(&chain, FP, b"aa").unwrap(), BlockPlacement::New(4));
}

#[test]
fn full_chain_is_refused() {
    let chain = vec![entry(u32::MAX, b"x")];
    match place_block(&chain, FP, b"y") {
        Err(RwError::PathError(h)) => assert_eq!(h, fingerprint_hex(FP)),
        other => panic!("unexpected {:?}", other),
    }
    assert_eq!(place_block(&chain, FP, b"x").unwrap(), BlockPlacement::Existing(u32::MAX));
}

#[test]
fn storing_the_same_block_twice_keeps_one_copy() {
    let data = vec![7u8; 1000];
    let mut chain: Vec<ChainEntry> = Vec::new();
    let first = place_block(&chain, FP, &data).unwrap();
    assert_eq!(first, BlockPlacement::New(1));
    chain.push(entry(first.index(), &data));
    let second = place_block(&chain, FP, &data).unwrap();
    assert_eq!(second, BlockPlacement::Existing(1));
    assert_eq!(chain.len(), 1);
}

#[test]
fn chain_indices_must_be_positive() {
    assert!(indices_are_positive(&vec![entry(1, b"a"), entry(9, b"b")]));
    assert!(!indices_are_positive(&vec![entry(1, b"a"), entry(0, b"b")]));
    assert!(indices_are_positive(&Vec::new()));
}
