use bao_tree::{BaoTree, ByteNum, ChunkNum, ChunkRanges, DecodeError, LeafNode, PostOrderOffset, TreeNode};

fn sample(len: usize) -> Vec<u8> {
    let mut v = Vec::with_capacity(len);
    let mut x: u32 = 0x2545_F491;
    for i in 0..len {
        x = x.wrapping_mul(1_103_515_245).wrapping_add(12345);
        v.push((x >> 16) as u8 ^ (i as u8));
    }
    v
}

#[test]
fn empty_blob_outboard_and_root() {
    let data: Vec<u8> = Vec::new();
    let (outboard, root) = BaoTree::outboard_post_order_mem(&data, 0);
    assert_eq!(outboard, vec![0u8; 8]);
    assert_eq!(&root, blake3::hash(&data).as_bytes());
}

#[test]
fn single_chunk_outboard_and_root() {
    let data = vec![b'a'; 1024];
    let (outboard, root) = BaoTree::outboard_post_order_mem(&data, 0);
    assert_eq!(outboard.len(), 8);
    assert_eq!(&outboard[..], &1024u64.to_le_bytes()[..]);
    assert_eq!(&root, blake3::hash(&data).as_bytes());
}

#[test]
fn outboard_length_formula() {
    // 64 * (blocks - 1) + 8, and the trailing size field
    for (len, g) in [
        (0usize, 0u8),
        (1, 0),
        (1024, 0),
        (2049, 0),
        (5000, 1),
        (70_000, 2),
        (1 << 20, 4),
    ] {
        let data = sample(len);
        let (outboard, _) = BaoTree::outboard_post_order_mem(&data, g);
        let block_bytes = 1u64 << (10 + g);
        let blocks = ((len as u64 + block_bytes - 1) / block_bytes).max(1);
        assert_eq!(outboard.len() as u64, 64 * (blocks - 1) + 8);
        let tail: [u8; 8] = outboard[outboard.len() - 8..].try_into().unwrap();
        assert_eq!(u64::from_le_bytes(tail), len as u64);
        let declared = BaoTree::outboard_size(ByteNum(len as u64), g);
        assert_eq!(declared.0, outboard.len() as u64);
    }
}

#[test]
fn three_chunk_outboard() {
    // 2049 bytes at group exponent 0: three blocks, two hash pairs
    let data = sample(2049);
    let (outboard, root) = BaoTree::outboard_post_order_mem(&data, 0);
    assert_eq!(outboard.len(), 64 * 2 + 8);
    assert_eq!(&root, blake3::hash(&data).as_bytes());
}

#[test]
fn root_matches_blake3_at_every_group_size() {
    for len in [0usize, 1, 1023, 1024, 1025, 2048, 2049, 16384, 100_000] {
        let data = sample(len);
        let expected = blake3::hash(&data);
        for g in [0u8, 1, 2, 4, 7] {
            let (_, root) = BaoTree::outboard_post_order_mem(&data, g);
            assert_eq!(&root, expected.as_bytes(), "len {} g {}", len, g);
        }
        let direct = BaoTree::blake3_hash(&data);
        assert_eq!(&direct, expected.as_bytes());
    }
}

#[test]
fn blake3_hash_inner_non_root() {
    // the first block of a two-block blob hashes as a non-root subtree
    let data = sample(2048);
    let (_, root) = BaoTree::outboard_post_order_mem(&data, 0);
    let l = BaoTree::blake3_hash_inner(&data[..1024], ChunkNum(0), false);
    let r = BaoTree::blake3_hash_inner(&data[1024..], ChunkNum(1), false);
    assert_ne!(l, r);
    assert_eq!(&root, blake3::hash(&data).as_bytes());
}

fn round_trip(data: &[u8], g: u8, start: u64, end: u64) -> Vec<(u64, Vec<u8>)> {
    let (outboard, root) = BaoTree::outboard_post_order_mem(data, g);
    let ranges = ChunkRanges::from_range(start, end);
    let encoded = BaoTree::encode_ranges(data, &outboard, &ranges, g);
    let (items, err) = BaoTree::decode_ranges(&root, &encoded, &ranges, g);
    assert_eq!(err, None, "g {} [{},{})", g, start, end);
    items.into_iter().map(|(o, b)| (o.0, b)).collect()
}

#[test]
fn decode_whole_blob() {
    // every decoded item is byte-identical to the matching data slice,
    // and together the items cover the whole requested range
    let data = sample(2049);
    let items = round_trip(&data, 0, 0, 3);
    let mut all: Vec<u8> = Vec::new();
    let mut next = 0u64;
    for (off, bytes) in &items {
        assert_eq!(*off, next);
        all.extend_from_slice(bytes);
        next += bytes.len() as u64;
    }
    assert_eq!(all, data);
}

#[test]
fn decode_single_chunk_range() {
    // one megabyte at sixteen-chunk blocks: asking for chunk 5 yields the
    // verified block half that contains it
    let data = sample(1 << 20);
    let items = round_trip(&data, 4, 5, 6);
    assert_eq!(items.len(), 1);
    let (off, bytes) = &items[0];
    // chunk 5 sits in the left half of the first leaf: bytes [0, 16 KiB)
    assert_eq!(*off, 0);
    assert_eq!(&bytes[..], &data[..16 * 1024]);
    // the requested chunk is inside the verified bytes
    assert_eq!(&bytes[5 * 1024..6 * 1024], &data[5 * 1024..6 * 1024]);
}

#[test]
fn decode_middle_range() {
    let data = sample(300_000);
    for g in [0u8, 1, 3] {
        let items = round_trip(&data, g, 17, 19);
        assert!(!items.is_empty());
        for (off, bytes) in &items {
            let o = *off as usize;
            assert_eq!(&bytes[..], &data[o..o + bytes.len()], "g {}", g);
        }
    }
}

#[test]
fn decode_corrupt_stream_detected() {
    // scenario: corrupt byte 24 of the encoded stream
    let data = sample(1 << 20);
    let (outboard, root) = BaoTree::outboard_post_order_mem(&data, 4);
    let ranges = ChunkRanges::from_range(5, 6);
    let mut encoded = BaoTree::encode_ranges(&data, &outboard, &ranges, 4);
    encoded[24] ^= 1;
    let (items, err) = BaoTree::decode_ranges(&root, &encoded, &ranges, 4);
    assert_eq!(err, Some(DecodeError::HashMismatch));
    assert!(items.is_empty());
}

#[test]
fn decode_detects_any_flipped_bit() {
    // flipping any single bit after the size header stops the decode
    let data = sample(3000);
    let (outboard, root) = BaoTree::outboard_post_order_mem(&data, 0);
    let ranges = ChunkRanges::from_range(0, 3);
    let encoded = BaoTree::encode_ranges(&data, &outboard, &ranges, 0);
    for pos in 8..encoded.len() {
        let mut bad = encoded.clone();
        bad[pos] ^= 0x40;
        let (_, err) = BaoTree::decode_ranges(&root, &bad, &ranges, 0);
        assert_eq!(err, Some(DecodeError::HashMismatch), "byte {}", pos);
    }
}

#[test]
fn decode_wrong_root_detected() {
    let data = sample(5000);
    let (outboard, mut root) = BaoTree::outboard_post_order_mem(&data, 0);
    let ranges = ChunkRanges::from_range(0, 5);
    let encoded = BaoTree::encode_ranges(&data, &outboard, &ranges, 0);
    root[0] ^= 1;
    let (items, err) = BaoTree::decode_ranges(&root, &encoded, &ranges, 0);
    assert_eq!(err, Some(DecodeError::HashMismatch));
    assert!(items.is_empty());
}

#[test]
fn decode_truncated_stream() {
    let data = sample(5000);
    let (outboard, root) = BaoTree::outboard_post_order_mem(&data, 0);
    let ranges = ChunkRanges::from_range(0, 5);
    let encoded = BaoTree::encode_ranges(&data, &outboard, &ranges, 0);
    let (_, err) = BaoTree::decode_ranges(&root, &encoded[..encoded.len() - 1], &ranges, 0);
    assert_eq!(err, Some(DecodeError::UnexpectedEof));
    let (items, err2) = BaoTree::decode_ranges(&root, &encoded[..4], &ranges, 0);
    assert_eq!(err2, Some(DecodeError::UnexpectedEof));
    assert!(items.is_empty());
}

#[test]
fn decode_rejects_absurd_size() {
    let mut stream = Vec::new();
    stream.extend_from_slice(&u64::MAX.to_le_bytes());
    let ranges = ChunkRanges::from_range(0, 1);
    let (items, err) = BaoTree::decode_ranges(&[0u8; 32], &stream, &ranges, 0);
    assert_eq!(err, Some(DecodeError::InvalidSize));
    assert!(items.is_empty());
}

#[test]
fn query_past_end_yields_last_chunk() {
    // 100 KiB blob, query far past the end: canonicalised to the last chunk
    let data = sample(100 * 1024);
    let (outboard, root) = BaoTree::outboard_post_order_mem(&data, 0);
    let ranges = ChunkRanges::from_start(1_000_000);
    let encoded = BaoTree::encode_ranges(&data, &outboard, &ranges, 0);
    let (items, err) = BaoTree::decode_ranges(&root, &encoded, &ranges, 0);
    assert_eq!(err, None);
    assert_eq!(items.len(), 1);
    let (off, bytes) = &items[0];
    assert_eq!(off.0, 99 * 1024);
    assert_eq!(&bytes[..], &data[99 * 1024..]);
}

#[test]
fn canonicalize_is_idempotent() {
    let cases: Vec<(ChunkRanges, u64)> = vec![
        (ChunkRanges::empty(), 0),
        (ChunkRanges::empty(), 10),
        (ChunkRanges::from_start(5), 3),
        (ChunkRanges::from_range(0, 3), 10),
        (ChunkRanges::from_start(2), 7),
        (ChunkRanges::from_range(100, 200), 10),
        (ChunkRanges::from_range(0, 7), 7),
    ];
    for (set, end) in cases {
        let once = set.canonicalize(end);
        let twice = once.canonicalize(end);
        assert_eq!(
            once.boundaries(),
            twice.boundaries(),
            "{:?} at {}",
            set.boundaries(),
            end
        );
    }
}

#[test]
fn canonicalize_empty_tree() {
    let set = ChunkRanges::from_range(0, 5);
    let canon = set.canonicalize(0);
    assert!(canon.is_empty());
}

#[test]
fn split_clamps_both_sides() {
    let set = ChunkRanges::from_range(2, 8);
    let (l, r) = set.split(5);
    assert_eq!(l.boundaries(), &vec![2, 5]);
    assert_eq!(r.boundaries(), &vec![5, 8]);
    let (l2, r2) = set.split(1);
    assert!(l2.is_empty());
    assert_eq!(r2.boundaries(), &vec![2, 8]);
    let (l3, r3) = set.split(9);
    assert_eq!(l3.boundaries(), &vec![2, 8]);
    assert!(r3.is_empty());
}

#[test]
fn tree_node_navigation() {
    let n = TreeNode(3);
    assert_eq!(n.level(), 2);
    assert!(!n.is_leaf());
    let lc = n.left_child().unwrap();
    let rc = n.right_child().unwrap();
    assert_eq!(lc, TreeNode(1));
    assert_eq!(rc, TreeNode(5));
    assert_eq!(lc.parent().unwrap(), n);
    assert_eq!(rc.parent().unwrap(), n);
    let br = n.block_range();
    assert_eq!((br.start.0, br.end.0), (0, 8));
    assert_eq!(TreeNode(0).as_leaf().unwrap(), LeafNode(0));
    assert!(TreeNode(1).as_leaf().is_none());
    assert_eq!(TreeNode(4).next_left_ancestor().unwrap(), TreeNode(3));
    assert!(TreeNode(0).next_left_ancestor().is_none());
}

#[test]
fn post_order_offsets_of_small_tree() {
    // seven-node filled tree: post-order is 0, 2, 1, 4, 6, 5, 3
    let expected = [(0u64, 0u64), (2, 1), (1, 2), (4, 3), (6, 4), (5, 5), (3, 6)];
    for (node, off) in expected {
        assert_eq!(TreeNode(node).post_order_offset().0, off, "node {}", node);
    }
    assert_eq!(TreeNode(3).right_count(), 0);
    assert_eq!(TreeNode(5).right_count(), 1);
    assert_eq!(TreeNode(6).right_count(), 2);
}

#[test]
fn iterate_matches_reference() {
    for (len, g) in [(2049u64, 0u8), (100_000, 1), (1 << 20, 4), (1, 0), (0, 0)] {
        let tree = BaoTree::new(ByteNum(len), g);
        let walk: Vec<u64> = tree.iterate().into_iter().map(|t| t.0).collect();
        let reference: Vec<u64> = tree.iterate_reference().into_iter().map(|t| t.0).collect();
        assert_eq!(walk, reference, "len {} g {}", len, g);
    }
    let tree = BaoTree::new(ByteNum(2049), 0);
    let walk: Vec<u64> = tree.iterate().into_iter().map(|t| t.0).collect();
    assert_eq!(walk, vec![0, 2, 1]);
}

#[test]
fn preorder_walk_shape() {
    let tree = BaoTree::new(ByteNum(2049), 0);
    let ranges = ChunkRanges::from_range(0, 3);
    let infos = tree.iterate_part_preorder_ref(&ranges, 0);
    let nodes: Vec<u64> = infos.iter().map(|i| i.node.0).collect();
    assert_eq!(nodes, vec![1, 0, 2]);
    assert!(!infos[0].query_leaf);
    assert!(infos[1].query_leaf);
    assert!(infos[2].query_leaf);
    // a query on the right side only keeps the left subtree out
    let right_only = ChunkRanges::from_range(2, 3);
    let infos2 = tree.iterate_part_preorder_ref(&right_only, 0);
    let nodes2: Vec<u64> = infos2.iter().map(|i| i.node.0).collect();
    assert_eq!(nodes2, vec![1, 2]);
}

#[test]
fn unit_conversions() {
    assert_eq!(ByteNum(0).chunks().0, 0);
    assert_eq!(ByteNum(1).chunks().0, 1);
    assert_eq!(ByteNum(1024).chunks().0, 1);
    assert_eq!(ByteNum(1025).chunks().0, 2);
    assert_eq!(ByteNum(4096).blocks(1).0, 2);
    assert_eq!(ByteNum(4097).blocks(1).0, 3);
    assert_eq!(ChunkNum(3).to_bytes().0, 3072);
    assert_eq!(BaoTree::new(ByteNum(0), 0).blocks().0, 1);
    assert_eq!(BaoTree::new(ByteNum(2049), 0).chunks().0, 3);
}

#[test]
fn post_order_offset_classification() {
    let tree = BaoTree::new(ByteNum(2049), 0);
    // leaf 0 is sealed
    match tree.post_order_offset(TreeNode(0)) {
        PostOrderOffset::Stable(p) => assert_eq!(p.0, 0),
        other => panic!("expected stable, got {:?}", other),
    }
    // the root sits on the unsealed right edge
    match tree.post_order_offset(TreeNode(1)) {
        PostOrderOffset::Unstable(p) => assert_eq!(p.0, 1),
        other => panic!("expected unstable, got {:?}", other),
    }
    // the half-empty last leaf is skipped
    match tree.post_order_offset(TreeNode(2)) {
        PostOrderOffset::Skip => {}
        other => panic!("expected skip, got {:?}", other),
    }
    assert_eq!(tree.post_order_offset(TreeNode(2)).value(), None);
}

#[test]
fn empty_blob_round_trip() {
    // the canonical query for an empty blob is empty: the stream is just
    // the size header and the decoder surfaces nothing
    let data: Vec<u8> = Vec::new();
    let (outboard, root) = BaoTree::outboard_post_order_mem(&data, 0);
    let ranges = ChunkRanges::from_range(0, 4);
    let encoded = BaoTree::encode_ranges(&data, &outboard, &ranges, 0);
    assert_eq!(encoded.len(), 8);
    let (items, err) = BaoTree::decode_ranges(&root, &encoded, &ranges, 0);
    assert_eq!(err, None);
    assert!(items.is_empty());
}

#[test]
fn preorder_walk_min_level_stops_early() {
    // with a raised minimum level a fully covered branch is emitted as a
    // query leaf instead of being descended
    let tree = BaoTree::new(ByteNum(4096), 0);
    let all = ChunkRanges::from_start(0);
    let deep = tree.iterate_part_preorder_ref(&all, 0);
    let shallow = tree.iterate_part_preorder_ref(&all, 8);
    assert!(deep.len() > shallow.len());
    assert_eq!(shallow.len(), 1);
    assert!(shallow[0].full);
    assert!(shallow[0].query_leaf);
}
