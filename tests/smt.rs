use miden_core::crypto::hash::RpoDigest;
use miden_core::crypto::merkle::TieredSmt as ReferenceSmt;
use miden_core::{Felt, StarkField};
use tiered_smt::{empty_value, TieredSmt, TreeError, Word};

const ONE: u64 = 1;
const ZERO: u64 = 0;
const EMPTY_VALUE: [u64; 4] = [0, 0, 0, 0];

fn key(raw: u64) -> [u64; 4] {
    [ONE, ONE, ONE, raw]
}

fn digest_of(w: [u64; 4]) -> RpoDigest {
    RpoDigest::from(w.map(Felt::new))
}

fn ints(d: RpoDigest) -> [u64; 4] {
    let e = d.as_elements();
    [e[0].as_int(), e[1].as_int(), e[2].as_int(), e[3].as_int()]
}

/// The tree built by the cryptography library itself from the same insertions.
fn reference(inserted: &[([u64; 4], [u64; 4])]) -> ReferenceSmt {
    let mut smt = ReferenceSmt::default();
    for (k, v) in inserted {
        smt.insert(digest_of(*k), v.map(Felt::new));
    }
    smt
}

/// Checks the value under `key`, and that the tree's root is the one the cryptography library
/// computes for the same insertions.
fn assert_smt_get_opens_correctly(
    smt: &TieredSmt,
    inserted: &[([u64; 4], [u64; 4])],
    key: [u64; 4],
    value: [u64; 4],
) {
    assert_eq!(smt.get(&Word::new(key)).to_array(), value);
    let expected = reference(inserted);
    assert_eq!(smt.root().to_array(), ints(expected.root()));
    let expected_value = expected.get_value(digest_of(key));
    assert_eq!(expected_value.map(|f| f.as_int()), value);
}

fn build(inserted: &[([u64; 4], [u64; 4])]) -> TieredSmt {
    let mut smt = TieredSmt::new();
    for (k, v) in inserted {
        smt.insert(Word::new(*k), Word::new(*v)).unwrap();
    }
    smt
}

#[test]
fn smtget_depth_16() {
    let mut smt = TieredSmt::default();
    let mut inserted = Vec::new();

    let raw_a = 0b_01010101_01101100_00011111_11111111_10010110_10010011_11100000_00000000_u64;
    let key_a = key(raw_a);
    assert_smt_get_opens_correctly(&smt, &inserted, key_a, EMPTY_VALUE);

    let val_a = [ONE, ONE, ONE, ONE];
    smt.insert(Word::new(key_a), Word::new(val_a)).unwrap();
    inserted.push((key_a, val_a));
    assert_smt_get_opens_correctly(&smt, &inserted, key_a, val_a);

    let raw_b = 0b_01111101_01101100_00011111_11111111_10010110_10010011_11100000_00000000_u64;
    assert_smt_get_opens_correctly(&smt, &inserted, key(raw_b), EMPTY_VALUE);

    let raw_c = 0b_01010101_01101100_11111111_11111111_10010110_10010011_11100000_00000000_u64;
    assert_smt_get_opens_correctly(&smt, &inserted, key(raw_c), EMPTY_VALUE);
}

#[test]
fn smtget_depth_32() {
    let raw_a = 0b_01010101_01010101_00011111_11111111_10010110_10010011_11100000_00000000_u64;
    let key_a = key(raw_a);
    let val_a = [ONE, ONE, ONE, ONE];
    let raw_b = 0b_01010101_01010101_11100000_11111111_10010110_10010011_11100000_00000000_u64;
    let key_b = key(raw_b);
    let val_b = [ZERO, ONE, ONE, ONE];
    let inserted = [(key_a, val_a), (key_b, val_b)];
    let smt = build(&inserted);

    assert_smt_get_opens_correctly(&smt, &inserted, key_a, val_a);
    assert_smt_get_opens_correctly(&smt, &inserted, key_b, val_b);

    let raw_c = 0b_01010101_01010101_11100111_11111111_10010110_10010011_11100000_00000000_u64;
    assert_smt_get_opens_correctly(&smt, &inserted, key(raw_c), EMPTY_VALUE);

    let raw_d = 0b_01010101_01010101_00011111_11111111_11111110_10010011_11100000_00000000_u64;
    assert_smt_get_opens_correctly(&smt, &inserted, key(raw_d), EMPTY_VALUE);

    let raw_e = 0b_01010101_01010101_11100000_11111111_10011111_10010011_11100000_00000000_u64;
    assert_smt_get_opens_correctly(&smt, &inserted, key(raw_e), EMPTY_VALUE);
}

#[test]
fn smtget_depth_48() {
    let raw_a = 0b_01010101_01010101_00011111_11111111_10010110_10010011_11100000_00000000_u64;
    let key_a = key(raw_a);
    let val_a = [ONE, ONE, ONE, ONE];
    let raw_b = 0b_01010101_01010101_00011111_11111111_11111111_10010011_11100000_00000000_u64;
    let key_b = key(raw_b);
    let val_b = [ZERO, ONE, ONE, ONE];
    let inserted = [(key_a, val_a), (key_b, val_b)];
    let smt = build(&inserted);

    assert_smt_get_opens_correctly(&smt, &inserted, key_a, val_a);
    assert_smt_get_opens_correctly(&smt, &inserted, key_b, val_b);

    let raw_c = 0b_01010101_01010101_00011111_11111111_00000000_10010011_11100000_00000000_u64;
    assert_smt_get_opens_correctly(&smt, &inserted, key(raw_c), EMPTY_VALUE);

    let raw_d = 0b_01010101_01010101_00011111_11111111_10010110_10010011_00000111_00000000_u64;
    assert_smt_get_opens_correctly(&smt, &inserted, key(raw_d), EMPTY_VALUE);

    let raw_e = 0b_01010101_01010101_00011111_11111111_11111111_10010011_000001011_00000000_u64;
    assert_smt_get_opens_correctly(&smt, &inserted, key(raw_e), EMPTY_VALUE);
}

#[test]
fn empty_tree_root_matches_reference() {
    let smt = TieredSmt::new();
    assert_eq!(smt.root().to_array(), ints(ReferenceSmt::default().root()));
    assert_ne!(smt.root().to_array(), EMPTY_VALUE);
}

#[test]
fn shared_full_prefix_forms_bottom_leaf() {
    let raw = 0b_01010101_01010101_00011111_11111111_10010110_10010011_11100000_00000000_u64;
    let key_a = [ONE, ONE, 7, raw];
    let key_b = [ONE, ONE, 3, raw];
    let key_c = [5, ONE, 3, raw];
    let val_a = [ONE, 2, 3, 4];
    let val_b = [5, 6, 7, 8];
    let val_c = [9, 10, 11, 12];
    let inserted = [(key_a, val_a), (key_b, val_b), (key_c, val_c)];
    let smt = build(&inserted);
    assert_smt_get_opens_correctly(&smt, &inserted, key_a, val_a);
    assert_smt_get_opens_correctly(&smt, &inserted, key_b, val_b);
    assert_smt_get_opens_correctly(&smt, &inserted, key_c, val_c);
    assert_smt_get_opens_correctly(&smt, &inserted, [ONE, ONE, ONE, raw], EMPTY_VALUE);

    let leaves = smt.upper_leaves();
    assert_eq!(leaves.len(), 3);
    assert_eq!(leaves[0].0, leaves[1].0);
    assert_eq!(leaves[1].0, leaves[2].0);
    assert_eq!(leaves[0].1.to_array(), key_b);
    assert_eq!(leaves[1].1.to_array(), key_c);
    assert_eq!(leaves[2].1.to_array(), key_a);
}

#[test]
fn insertion_order_does_not_change_root() {
    let pairs = [
        (key(0x5555_0000_0000_0001), [ONE, 2, 3, 4]),
        (key(0x5555_0000_0000_0002), [5, 6, 7, 8]),
        (key(0x5556_0000_0000_0000), [9, 10, 11, 12]),
        (key(0x1234_5678_0000_0000), [13, 14, 15, 16]),
    ];
    let forward = build(&pairs);
    let mut reversed_pairs = pairs;
    reversed_pairs.reverse();
    let reversed = build(&reversed_pairs);
    let shuffled = build(&[pairs[2], pairs[0], pairs[3], pairs[1]]);
    assert_eq!(forward.root(), reversed.root());
    assert_eq!(forward.root(), shuffled.root());
    assert_eq!(forward.root().to_array(), ints(reference(&pairs).root()));
}

#[test]
fn rebuilding_from_leaves_keeps_root() {
    let pairs = [
        (key(0x5555_0000_0000_0001), [ONE, 2, 3, 4]),
        (key(0x5555_0000_0000_0002), [5, 6, 7, 8]),
        ([2, ONE, ONE, 0x5555_0000_0000_0002], [7, 7, 7, 7]),
        (key(0x5555_8000_0000_0000), [9, 10, 11, 12]),
        (key(0xabcd_0000_0000_0000), [13, 14, 15, 16]),
    ];
    let smt = build(&pairs);
    let leaves = smt.upper_leaves();
    assert_eq!(leaves.len(), pairs.len());
    let entries: Vec<(Word, Word)> = leaves.iter().map(|(_, k, v)| (*k, *v)).collect();
    let rebuilt = TieredSmt::with_entries(&entries).unwrap();
    assert_eq!(rebuilt.root(), smt.root());
    for (k, v) in pairs.iter() {
        assert_eq!(rebuilt.get(&Word::new(*k)).to_array(), *v);
    }
}

#[test]
fn leaves_carry_their_node_digests() {
    let key_a = key(0x5555_0000_0000_0001);
    let val_a = [ONE, 2, 3, 4];
    let smt = build(&[(key_a, val_a)]);
    let leaves = smt.upper_leaves();
    assert_eq!(leaves.len(), 1);
    let reference = reference(&[(key_a, val_a)]);
    let expected: Vec<([u64; 4], [u64; 4], [u64; 4])> = reference
        .upper_leaves()
        .map(|(node, k, v)| (ints(node), ints(k), v.map(|f| f.as_int())))
        .collect();
    assert_eq!(expected.len(), 1);
    assert_eq!(leaves[0].0.to_array(), expected[0].0);
    assert_eq!(leaves[0].1.to_array(), expected[0].1);
    assert_eq!(leaves[0].2.to_array(), expected[0].2);
}

#[test]
fn insert_returns_previous_value_and_updates() {
    let key_a = key(0x0101_0000_0000_0000);
    let mut smt = TieredSmt::new();
    assert_eq!(smt.insert(Word::new(key_a), Word::new([ONE, ONE, ONE, ONE])), Ok(empty_value()));
    assert_eq!(
        smt.insert(Word::new(key_a), Word::new([2, 2, 2, 2])),
        Ok(Word::new([ONE, ONE, ONE, ONE]))
    );
    assert_eq!(smt.get(&Word::new(key_a)).to_array(), [2, 2, 2, 2]);
    let expected = reference(&[(key_a, [2, 2, 2, 2])]);
    assert_eq!(smt.root().to_array(), ints(expected.root()));
}

#[test]
fn inserting_empty_value_is_refused() {
    let key_a = key(0x0101_0000_0000_0000);
    let mut smt = build(&[(key_a, [ONE, ONE, ONE, ONE])]);
    let root = smt.root();
    assert_eq!(smt.insert(Word::new(key_a), empty_value()), Err(TreeError::InvalidValue));
    assert_eq!(smt.root(), root);
    assert_eq!(smt.get(&Word::new(key_a)).to_array(), [ONE, ONE, ONE, ONE]);
    let entries = vec![(Word::new(key_a), empty_value())];
    assert!(matches!(TieredSmt::with_entries(&entries), Err(TreeError::InvalidValue)));
}

#[test]
fn prefix_collision_at_each_tier() {
    for shared in [16u32, 32, 48] {
        let base = 0x5a5a_5a5a_5a5a_5a5a_u64;
        let flip_a = 1u64 << (63 - shared);
        let key_a = key(base);
        let key_b = key(base ^ flip_a);
        let key_c = key(base ^ (flip_a >> 1));
        let inserted = [(key_a, [ONE, ONE, ONE, ONE]), (key_b, [ZERO, ONE, ONE, ONE])];
        let smt = build(&inserted);
        assert_smt_get_opens_correctly(&smt, &inserted, key_a, [ONE, ONE, ONE, ONE]);
        assert_smt_get_opens_correctly(&smt, &inserted, key_b, [ZERO, ONE, ONE, ONE]);
        assert_smt_get_opens_correctly(&smt, &inserted, key_c, EMPTY_VALUE);
    }
}

/// The sibling path that the cryptography library gives for the node at `depth` on the route of
/// `raw`, from the root's children down.
fn reference_path(smt: &ReferenceSmt, raw: u64, depth: u8) -> Vec<[u64; 4]> {
    let index = miden_core::crypto::merkle::NodeIndex::new(depth, raw >> (64 - depth as u32))
        .unwrap();
    let path = smt.get_path(index).unwrap();
    path.iter().rev().map(|d| ints(*d)).collect()
}

fn path_of(smt: &TieredSmt, k: [u64; 4]) -> Vec<[u64; 4]> {
    smt.path(&Word::new(k)).iter().map(|w| w.to_array()).collect()
}

#[test]
fn paths_match_reference_at_each_tier() {
    let raw_a = 0b_01010101_01010101_00011111_11111111_10010110_10010011_11100000_00000000_u64;
    let raw_b = 0b_01010101_01010101_11100000_11111111_10010110_10010011_11100000_00000000_u64;
    let raw_c = 0b_10010101_01010101_11100000_11111111_10010110_10010011_11100000_00000000_u64;
    let inserted = [
        (key(raw_a), [ONE, ONE, ONE, ONE]),
        (key(raw_b), [ZERO, ONE, ONE, ONE]),
        (key(raw_c), [3, 3, 3, 3]),
    ];
    let smt = build(&inserted);
    let expected = reference(&inserted);
    assert_eq!(path_of(&smt, key(raw_a)), reference_path(&expected, raw_a, 32));
    assert_eq!(path_of(&smt, key(raw_b)), reference_path(&expected, raw_b, 32));
    assert_eq!(path_of(&smt, key(raw_c)), reference_path(&expected, raw_c, 16));
    let raw_d = 0x0123_4567_89ab_cdef_u64;
    assert_eq!(path_of(&smt, key(raw_d)), reference_path(&expected, raw_d, 16));

    let bucket = [([ONE, ONE, 7, raw_a], [ONE, 2, 3, 4]), ([ONE, ONE, 3, raw_a], [5, 6, 7, 8])];
    let smt = build(&bucket);
    let expected = reference(&bucket);
    assert_eq!(path_of(&smt, bucket[0].0).len(), 64);
    assert_eq!(path_of(&smt, bucket[0].0), reference_path(&expected, raw_a, 64));
}

#[test]
fn advice_map_flattens_leaves() {
    let key_a = key(0x5555_0000_0000_0001);
    let key_b = key(0x7777_0000_0000_0000);
    let smt = build(&[(key_a, [ONE, 2, 3, 4]), (key_b, [5, 6, 7, 8])]);
    let advice = smt.advice_map();
    let leaves = smt.upper_leaves();
    assert_eq!(advice.len(), 2);
    assert_eq!(advice[0].0, leaves[0].0);
    assert_eq!(advice[0].1, vec![ONE, ONE, ONE, 0x5555_0000_0000_0001, ONE, 2, 3, 4]);
    assert_eq!(advice[1].0, leaves[1].0);
    assert_eq!(advice[1].1, vec![ONE, ONE, ONE, 0x7777_0000_0000_0000, 5, 6, 7, 8]);
}

#[test]
fn key_prefixes_are_nested() {
    let k = Word::new(key(0x0123_4567_89ab_cdef));
    assert_eq!(tiered_smt::key_prefix(&k, 16), 0x0123);
    assert_eq!(tiered_smt::key_prefix(&k, 32), 0x0123_4567);
    assert_eq!(tiered_smt::key_prefix(&k, 48), 0x0123_4567_89ab);
    assert_eq!(tiered_smt::key_prefix(&k, 64), 0x0123_4567_89ab_cdef);
    assert_eq!(tiered_smt::key_prefix(&k, 32) >> 16, tiered_smt::key_prefix(&k, 16));
}
