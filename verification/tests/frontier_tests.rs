use incrementalmerkletree::frontier::{CommitmentTree, Frontier};
use incrementalmerkletree::{Hashable, Level, Position};
use sapling_crypto::Node;

use merkle_frontier::codec::DecodeError;
use merkle_frontier::frontier::{new_sapling, sapling_empty_root, AppendError, MerkleFrontier};

fn leaf(i: u8) -> Vec<u8> {
    let mut v = vec![0u8; 32];
    v[0] = i;
    v[1] = i.wrapping_mul(37);
    v
}

fn node(d: &[u8]) -> Node {
    let b: [u8; 32] = d.try_into().unwrap();
    Node::from_bytes(b).unwrap()
}

fn nb(n: Node) -> Vec<u8> {
    n.to_bytes().to_vec()
}

/// The reference frontier from the upstream crate, fed the same leaves.
fn real_frontier(leaves: &[Vec<u8>]) -> Frontier<Node, 32> {
    let mut f: Frontier<Node, 32> = Frontier::empty();
    for l in leaves {
        assert!(f.append(node(l)));
    }
    f
}

fn ours_from(leaves: &[Vec<u8>]) -> MerkleFrontier {
    let mut f = MerkleFrontier::empty();
    for l in leaves {
        assert!(f.append(l));
    }
    f
}

#[test]
fn empty_root_equals_empty_frontier_root() {
    let f = MerkleFrontier::empty();
    assert_eq!(f.root(), sapling_empty_root());
    assert_eq!(
        sapling_empty_root(),
        nb(Node::empty_root(Level::from(32u8)))
    );
    assert_eq!(f.size(), 0);
    let boxed = new_sapling();
    assert_eq!(boxed.root(), sapling_empty_root());
}

#[test]
fn size_counts_appends() {
    let mut f = MerkleFrontier::empty();
    for n in 1u64..=9 {
        assert!(f.append(&leaf(n as u8)));
        assert_eq!(f.size(), n);
    }
}

#[test]
fn root_matches_reference_crate() {
    for count in [1usize, 2, 3, 4, 5, 8, 11] {
        let leaves: Vec<Vec<u8>> = (0..count).map(|i| leaf(i as u8 + 1)).collect();
        let ours = ours_from(&leaves);
        let real = real_frontier(&leaves);
        assert_eq!(ours.root(), nb(real.root()), "root differs at {count} leaves");
        // The partially populated height-16 subtree hash agrees as well.
        assert_eq!(
            ours.root_at_level(16),
            nb(real.value().unwrap().root(Some(Level::from(16u8)))),
            "level-16 hash differs at {count} leaves"
        );
    }
}

#[test]
fn three_leaves_concrete_combine_chain() {
    let leaves = [leaf(1), leaf(2), leaf(3)];
    let mut f = MerkleFrontier::empty();
    let ev = f.append_bundle(&leaves.to_vec()).unwrap();
    assert!(!ev.has_subtree_boundary);
    assert_eq!(f.size(), 3);

    // The expected root: L1,L2 combined at level 0; L3 padded with the empty
    // leaf; then empty padding at every unfilled level up to the full depth.
    let om01 = Node::combine(Level::from(0u8), &node(&leaves[0]), &node(&leaves[1]));
    let mut cur = Node::combine(Level::from(0u8), &node(&leaves[2]), &Node::empty_root(Level::from(0u8)));
    cur = Node::combine(Level::from(1u8), &om01, &cur);
    for lvl in 2u8..32 {
        cur = Node::combine(Level::from(lvl), &cur, &Node::empty_root(Level::from(lvl)));
    }
    assert_eq!(f.root(), nb(cur));
}

#[test]
fn capacity_rejects_append_past_full_tree() {
    // A frontier one slot short of full: position 2^32 - 2 has 31 set bits.
    let ommers: Vec<Vec<u8>> = (0..31).map(|i| leaf(i as u8 + 100)).collect();
    let mut f = MerkleFrontier::from_parts(0xFFFF_FFFE, leaf(7), ommers).unwrap();
    assert_eq!(f.size(), 0xFFFF_FFFF);
    assert!(f.append(&leaf(8)));
    assert_eq!(f.size(), 0x1_0000_0000);
    let before = f.serialize();
    assert!(!f.append(&leaf(9)));
    assert_eq!(f.size(), 0x1_0000_0000);
    assert_eq!(f.serialize(), before, "failed append must not mutate");
}

#[test]
fn bundle_capacity_error_keeps_prior_appends() {
    let ommers: Vec<Vec<u8>> = (0..31).map(|i| leaf(i as u8 + 100)).collect();
    let mut f = MerkleFrontier::from_parts(0xFFFF_FFFE, leaf(7), ommers).unwrap();
    let batch = vec![leaf(1), leaf(2), leaf(3)];
    let err = f.append_bundle(&batch).unwrap_err();
    assert_eq!(err, AppendError::TreeFull);
    assert_eq!(err.description(), "Sapling note commitment tree is full.");
    // The one append that fit stays committed.
    assert_eq!(f.size(), 0x1_0000_0000);
}

#[test]
fn bundle_rejects_malformed_digest_without_mutation() {
    let mut f = ours_from(&[leaf(1)]);
    let before = f.serialize();
    let err = f.append_bundle(&vec![leaf(2), vec![0xFFu8; 32]]).unwrap_err();
    assert_eq!(err, AppendError::MalformedDigest);
    assert!(!err.description().is_empty());
    let err = f.append_bundle(&vec![vec![1u8; 3]]).unwrap_err();
    assert_eq!(err, AppendError::MalformedDigest);
    assert_eq!(f.serialize(), before, "a rejected batch must not mutate");
}

#[test]
fn bundle_boundary_fires_exactly_once() {
    // Start 3 leaves short of a height-16 subtree boundary: position 65532
    // (size 65533), whose binary form 1111111111111100 has 14 set bits.
    let ommers: Vec<Vec<u8>> = (0..14).map(|i| leaf(i as u8 + 50)).collect();
    let mut ours = MerkleFrontier::from_parts(65532, leaf(7), ommers.clone()).unwrap();
    let mut real = Frontier::<Node, 32>::from_parts(
        Position::from(65532u64),
        node(&leaf(7)),
        ommers.iter().map(|o| node(o)).collect(),
    )
    .unwrap();

    let batch = vec![leaf(1), leaf(2), leaf(3), leaf(4), leaf(5)];
    let ev = ours.append_bundle(&batch).unwrap();
    assert!(ev.has_subtree_boundary);

    // The reference subtree root: the hash at height 16 right after the
    // append that filled the subtree (the third leaf of the batch).
    let mut expected = None;
    for l in &batch {
        assert!(real.append(node(l)));
        let nef = real.value().unwrap();
        if (u64::from(nef.position()) + 1) % 65536 == 0 {
            assert!(expected.is_none(), "a second boundary must not occur");
            expected = Some(nb(nef.root(Some(Level::from(16u8)))));
        }
    }
    assert_eq!(ev.completed_subtree_root, expected.unwrap());
    assert_eq!(ours.root(), nb(real.root()));
    assert_eq!(ours.size(), 65538);
}

#[test]
fn bundle_without_boundary_reports_none() {
    let mut f = MerkleFrontier::empty();
    let ev = f.append_bundle(&vec![leaf(1), leaf(2)]).unwrap();
    assert!(!ev.has_subtree_boundary);
    assert_eq!(ev.completed_subtree_root, vec![0u8; 32]);
}

#[test]
fn empty_bundle_is_a_no_op() {
    let mut f = ours_from(&[leaf(1), leaf(2), leaf(3)]);
    let before = f.serialize();
    let ev = f.append_bundle(&Vec::new()).unwrap();
    assert!(!ev.has_subtree_boundary);
    assert_eq!(f.size(), 3);
    assert_eq!(f.serialize(), before);
}

#[test]
fn bundle_filling_last_subtree_slot_detects_completion() {
    // One leaf short of the boundary; a batch of exactly one leaf fills the
    // last slot and must still report completion.
    let ommers: Vec<Vec<u8>> = (0..15).map(|i| leaf(i as u8 + 60)).collect();
    let mut ours = MerkleFrontier::from_parts(65534, leaf(9), ommers).unwrap();
    let ev = ours.append_bundle(&vec![leaf(1)]).unwrap();
    assert!(ev.has_subtree_boundary);
    assert_eq!(ours.size(), 65536);
}

#[test]
fn serialize_then_parse_restores_state() {
    for count in [0usize, 1, 2, 3, 5, 9] {
        let leaves: Vec<Vec<u8>> = (0..count).map(|i| leaf(i as u8 + 1)).collect();
        let ours = ours_from(&leaves);
        let bytes = ours.serialize();
        let (back, used) = MerkleFrontier::parse(&bytes, 0).unwrap();
        assert_eq!(used, bytes.len());
        assert_eq!(back.size(), ours.size());
        assert_eq!(back.root(), ours.root());
        assert_eq!(back.serialize(), bytes);
    }
}

#[test]
fn serialized_byte_layout_is_stable() {
    assert_eq!(MerkleFrontier::empty().serialize(), vec![1u8, 0u8]);
    let l = leaf(5);
    let f = ours_from(&[l.clone()]);
    let mut expected = vec![1u8, 1u8];
    expected.extend_from_slice(&[0u8; 8]); // position 0, little endian
    expected.extend_from_slice(&l);
    expected.push(0u8); // no ommers at position 0
    assert_eq!(f.serialize(), expected);
}

#[test]
fn parse_reads_at_an_offset() {
    let ours = ours_from(&[leaf(1), leaf(2), leaf(3)]);
    let mut bytes = vec![0xAAu8, 0xBB, 0xCC];
    bytes.extend_from_slice(&ours.serialize());
    bytes.push(0xDD);
    let (back, used) = MerkleFrontier::parse(&bytes, 3).unwrap();
    assert_eq!(used, bytes.len() - 1);
    assert_eq!(back.root(), ours.root());
    let (boxed, _) = merkle_frontier::codec::parse_sapling(&bytes, 3).unwrap();
    assert_eq!(boxed.root(), ours.root());
}

#[test]
fn parse_rejects_truncated_streams() {
    assert_eq!(
        MerkleFrontier::parse(&Vec::new(), 0).unwrap_err(),
        DecodeError::Truncated
    );
    let full = ours_from(&[leaf(1), leaf(2), leaf(3)]).serialize();
    for cut in [1usize, 5, 12, 42, full.len() - 1] {
        let short: Vec<u8> = full[..cut].to_vec();
        assert_eq!(
            MerkleFrontier::parse(&short, 0).unwrap_err(),
            DecodeError::Truncated,
            "cut at {cut}"
        );
    }
}

#[test]
fn parse_rejects_unknown_version() {
    let mut bytes = ours_from(&[leaf(1)]).serialize();
    bytes[0] = 2;
    assert_eq!(
        MerkleFrontier::parse(&bytes, 0).unwrap_err(),
        DecodeError::UnsupportedVersion
    );
}

#[test]
fn parse_rejects_malformed_flag() {
    let bytes = vec![1u8, 7u8];
    assert_eq!(
        MerkleFrontier::parse(&bytes, 0).unwrap_err(),
        DecodeError::MalformedFlag
    );
}

#[test]
fn parse_rejects_out_of_range_position() {
    let mut bytes = ours_from(&[leaf(1)]).serialize();
    // Position bytes sit at offsets 2..10; force 2^32.
    for b in bytes.iter_mut().skip(2).take(8) {
        *b = 0;
    }
    bytes[6] = 1;
    assert_eq!(
        MerkleFrontier::parse(&bytes, 0).unwrap_err(),
        DecodeError::PositionOutOfRange
    );
}

#[test]
fn parse_rejects_count_mismatch() {
    let mut bytes = ours_from(&[leaf(1), leaf(2), leaf(3)]).serialize();
    // The ommer count byte sits at offset 42.
    bytes[42] = bytes[42].wrapping_add(1);
    assert_eq!(
        MerkleFrontier::parse(&bytes, 0).unwrap_err(),
        DecodeError::CountMismatch
    );
}

#[test]
fn parse_rejects_non_canonical_digest() {
    let mut bytes = ours_from(&[leaf(1)]).serialize();
    // The leaf digest sits at offsets 10..42; all-ones is no canonical
    // field-element encoding.
    for b in bytes.iter_mut().skip(10).take(32) {
        *b = 0xFF;
    }
    assert_eq!(
        MerkleFrontier::parse(&bytes, 0).unwrap_err(),
        DecodeError::NonCanonicalDigest
    );
    assert!(!DecodeError::NonCanonicalDigest.description().is_empty());
}

#[test]
fn from_parts_validates_its_inputs() {
    assert!(MerkleFrontier::from_parts(0, leaf(1), Vec::new()).is_ok());
    assert!(MerkleFrontier::from_parts(0x1_0000_0000, leaf(1), Vec::new()).is_err());
    assert!(MerkleFrontier::from_parts(0, vec![1u8; 31], Vec::new()).is_err());
    assert!(MerkleFrontier::from_parts(0, vec![0xFFu8; 32], Vec::new()).is_err());
    // Position 1 needs exactly one ommer.
    assert!(MerkleFrontier::from_parts(1, leaf(1), Vec::new()).is_err());
    assert!(MerkleFrontier::from_parts(1, leaf(1), vec![leaf(2)]).is_ok());
    assert!(MerkleFrontier::from_parts(1, leaf(1), vec![vec![0xFFu8; 32]]).is_err());
}

/// Decodes the legacy bytes the way an external reader does and rebuilds the
/// commitment tree.
fn legacy_tree_from_bytes(bytes: &[u8]) -> CommitmentTree<Node, 32> {
    let mut pos = 0usize;
    let read_opt = |pos: &mut usize| -> Option<Node> {
        let tag = bytes[*pos];
        *pos += 1;
        match tag {
            0 => None,
            1 => {
                let n = node(&bytes[*pos..*pos + 32]);
                *pos += 32;
                Some(n)
            }
            _ => panic!("malformed optional tag"),
        }
    };
    let left = read_opt(&mut pos);
    let right = read_opt(&mut pos);
    let count = bytes[pos] as usize;
    pos += 1;
    let mut parents = Vec::new();
    for _ in 0..count {
        parents.push(read_opt(&mut pos));
    }
    assert_eq!(pos, bytes.len(), "legacy encoding has trailing bytes");
    CommitmentTree::from_parts(left, right, parents).unwrap()
}

#[test]
fn legacy_bytes_rebuild_a_tree_with_the_same_root() {
    for count in [1usize, 2, 3, 5, 8] {
        let leaves: Vec<Vec<u8>> = (0..count).map(|i| leaf(i as u8 + 1)).collect();
        let ours = ours_from(&leaves);
        let tree = legacy_tree_from_bytes(&ours.serialize_legacy());
        assert_eq!(nb(tree.root()), ours.root(), "legacy root differs at {count}");
        // The reconstruction matches what the upstream crate derives itself.
        let derived = CommitmentTree::from_frontier(&real_frontier(&leaves));
        assert_eq!(nb(derived.root()), ours.root());
    }
}

#[test]
fn legacy_bytes_of_the_empty_frontier() {
    let f = MerkleFrontier::empty();
    let bytes = f.serialize_legacy();
    assert_eq!(bytes, vec![0u8, 0u8, 0u8]);
    let tree: CommitmentTree<Node, 32> = CommitmentTree::empty();
    assert_eq!(nb(tree.root()), f.root());
}

#[test]
fn clone_is_independent() {
    let mut f = ours_from(&[leaf(1), leaf(2)]);
    let c = f.box_clone();
    assert_eq!(c.root(), f.root());
    assert_eq!(c.serialize(), f.serialize());
    assert!(f.append(&leaf(3)));
    assert_eq!(f.size(), 3);
    assert_eq!(c.size(), 2, "clone must not share state");
}

#[test]
fn dynamic_memory_usage_counts_retained_digests() {
    let mut f = MerkleFrontier::empty();
    assert_eq!(f.dynamic_memory_usage(), 0);
    assert!(f.append(&leaf(1)));
    assert_eq!(f.dynamic_memory_usage(), 32);
    assert!(f.append(&leaf(2)));
    assert_eq!(f.dynamic_memory_usage(), 64);
    assert!(f.append(&leaf(3)));
    assert_eq!(f.dynamic_memory_usage(), 64);
    assert!(f.append(&leaf(4)));
    assert_eq!(f.dynamic_memory_usage(), 96);
}
