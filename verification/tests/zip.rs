use minikv::zip::{Choice, EncodedTreePath, HuffmanTree};

#[test]
fn choices_serialization_roundtrip_test() {
    for raw_bytes in 0..u16::MAX {
        let original_bytes = EncodedTreePath::from_bytes([
            0, 0, 0, 0, 0, 0, 0, 0, 0, 0, 0, 0, 0, 0, 0, 0, 0, 0, 0, 0, 0, 0, 0, 0, 0, 0, 0, 0,
            0, 0, (raw_bytes >> 8) as u8, raw_bytes as u8,
        ]);
        let original_choices = Choice::deserialize(original_bytes);
        let reserialized_bytes = Choice::serialize(original_choices.clone());
        if original_bytes != reserialized_bytes {
            println!("Original {:?} => {:?}", original_bytes.to_bytes(), original_choices.clone());
            println!(
                "Reserialized {:?} => {:?}",
                reserialized_bytes.to_bytes(),
                Choice::deserialize(reserialized_bytes)
            );
            assert_eq!(original_bytes, reserialized_bytes);
        }
    }
}

#[test]
fn encoded_table_seralization_test() {
    for byte in 0..u8::MAX {
        let raw = [byte; 32];
        assert_eq!(raw.to_vec(), EncodedTreePath::from_bytes(raw).to_bytes());
    }
}

#[test]
fn encoded_table_shl_no_overflow_test() {
    let original = EncodedTreePath::from_bytes([
        0, 7, 0, 7, 0, 7, 0, 7, 0, 7, 0, 7, 0, 7, 0, 7, 0, 7, 0, 7, 0, 7, 0, 7, 0, 7, 0, 7, 0, 7,
        0, 7,
    ]);
    let expected = EncodedTreePath::from_bytes([
        7, 0, 7, 0, 7, 0, 7, 0, 7, 0, 7, 0, 7, 0, 7, 0, 7, 0, 7, 0, 7, 0, 7, 0, 7, 0, 7, 0, 7, 0,
        7, 0,
    ]);
    assert_eq!(original.shl(8), expected);
}

#[test]
fn encoded_table_shl_overflow_test() {
    let original = EncodedTreePath::from_bytes([
        0, 7, 0, 7, 0, 7, 0, 7, 0, 7, 0, 7, 0, 7, 0, 7, 0, 7, 0, 7, 0, 7, 0, 7, 0, 7, 0, 7, 0, 7,
        0, 7,
    ]);
    let expected = EncodedTreePath::from_bytes([
        0, 7, 0, 7, 0, 7, 0, 7, 0, 7, 0, 7, 0, 7, 0, 7, 0, 7, 0, 7, 0, 7, 0, 7, 0, 7, 0, 7, 0, 7,
        0, 0,
    ]);
    assert_eq!(original.shl(16), expected);
}

#[test]
fn encoded_table_shl_no_underflow_test() {
    let original = EncodedTreePath::from_bytes([
        7, 0, 7, 0, 7, 0, 7, 0, 7, 0, 7, 0, 7, 0, 7, 0, 7, 0, 7, 0, 7, 0, 7, 0, 7, 0, 7, 0, 7, 0,
        7, 0,
    ]);
    let expected = EncodedTreePath::from_bytes([
        0, 7, 0, 7, 0, 7, 0, 7, 0, 7, 0, 7, 0, 7, 0, 7, 0, 7, 0, 7, 0, 7, 0, 7, 0, 7, 0, 7, 0, 7,
        0, 7,
    ]);
    assert_eq!(original.shr(8), expected);
}

#[test]
fn encoded_table_shl_underflow_test() {
    let original = EncodedTreePath::from_bytes([
        7, 0, 7, 0, 7, 0, 7, 0, 7, 0, 7, 0, 7, 0, 7, 0, 7, 0, 7, 0, 7, 0, 7, 0, 7, 0, 7, 0, 7, 0,
        7, 0,
    ]);
    let expected = EncodedTreePath::from_bytes([
        0, 0, 7, 0, 7, 0, 7, 0, 7, 0, 7, 0, 7, 0, 7, 0, 7, 0, 7, 0, 7, 0, 7, 0, 7, 0, 7, 0, 7, 0,
        7, 0,
    ]);
    assert_eq!(original.shr(16), expected);
}

#[test]
fn huffman_tree_weighs_its_table() {
    let tree = HuffmanTree::new(vec![(b'a', 5), (b'b', 2), (b'c', 9)]);
    assert_eq!(tree.weight(), 16);
}

#[test]
fn huffman_paths_reach_every_byte() {
    let tree = HuffmanTree::new(vec![(b'a', 5), (b'b', 2), (b'c', 9)]);
    let paths = tree.serialize_choices();
    assert_eq!(paths.len(), 3);
    // Walk each byte's path; it must end at that byte's leaf.
    let keys = [b'a', b'b', b'c'];
    for (k, path) in keys.iter().zip(paths.iter()) {
        let mut search = &tree;
        let mut found = None;
        for (step, choice) in path.iter().enumerate() {
            match search.find(*choice) {
                Ok(byte) => {
                    assert_eq!(step + 1, path.len());
                    found = Some(byte);
                }
                Err(next) => search = next,
            }
        }
        assert_eq!(found, Some(*k));
    }
}

#[test]
fn rebuilding_from_the_choice_table_preserves_every_path() {
    let tree = HuffmanTree::new(vec![(b'a', 5), (b'b', 2), (b'c', 9), (b'd', 1)]);
    let paths = tree.serialize_choices();
    let table: Vec<(u8, Vec<Choice>)> =
        [b'a', b'b', b'c', b'd'].iter().copied().zip(paths.clone().into_iter()).collect();
    let rebuilt = HuffmanTree::deserialize_with(table);
    assert_eq!(rebuilt.serialize_choices(), paths);
}
