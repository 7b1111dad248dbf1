use merkle_patricia::nibbles::{hex_prefix_encode, hex_prefix_unpack, to_nibbles};
use merkle_patricia::node::Node;
use merkle_patricia::rlp::{RlpDecodable, Rlpable};
use merkle_patricia::trie::{Trie, TrieError};

fn b(text: &str) -> Vec<u8> {
    text.as_bytes().to_vec()
}

#[test]
fn get_blank_root_node() {
    let trie = Trie::new();
    assert!(matches!(trie.get_root_node(), Ok(Node::Blank)));
    assert!(trie.root_hash().is_empty());
}

#[test]
fn nibbles_of_bytes() {
    assert_eq!(to_nibbles(&vec![0x12, 0xab]), vec![1, 2, 10, 11]);
    assert_eq!(to_nibbles(&vec![]), Vec::<u8>::new());
}

#[test]
fn hex_prefix_examples() {
    assert_eq!(hex_prefix_encode(&vec![1, 2, 3, 4, 5], 0, false), vec![0x11, 0x23, 0x45]);
    assert_eq!(hex_prefix_encode(&vec![0, 1, 2, 3, 4, 5], 0, false), vec![0x00, 0x01, 0x23, 0x45]);
    assert_eq!(hex_prefix_encode(&vec![0, 15, 1, 12, 11, 8], 0, true), vec![0x20, 0x0f, 0x1c, 0xb8]);
    assert_eq!(hex_prefix_encode(&vec![15, 1, 12, 11, 8], 0, true), vec![0x3f, 0x1c, 0xb8]);
    assert_eq!(hex_prefix_encode(&vec![9, 15, 1, 12, 11, 8], 1, true), vec![0x3f, 0x1c, 0xb8]);
    assert_eq!(hex_prefix_encode(&vec![], 0, true), vec![0x20]);
}

#[test]
fn hex_prefix_unpack_examples() {
    assert_eq!(hex_prefix_unpack(&vec![0x11, 0x23, 0x45]), Some((vec![1, 2, 3, 4, 5], false)));
    assert_eq!(hex_prefix_unpack(&vec![0x20, 0x0f, 0x1c, 0xb8]), Some((vec![0, 15, 1, 12, 11, 8], true)));
    assert_eq!(hex_prefix_unpack(&vec![0x3f, 0x1c, 0xb8]), Some((vec![15, 1, 12, 11, 8], true)));
    assert_eq!(hex_prefix_unpack(&vec![]), None);
    assert_eq!(hex_prefix_unpack(&vec![0x40]), None);
}

#[test]
fn set_then_get_returns_value() {
    let mut trie = Trie::new();
    let pairs = [("do", "verb"), ("dog", "puppy"), ("doge", "coin"), ("horse", "stallion")];
    for (k, v) in pairs.iter() {
        trie.set(&b(k), &b(v)).unwrap();
    }
    for (k, v) in pairs.iter() {
        assert_eq!(trie.get(&b(k)).unwrap(), Some(b(v)));
    }
    assert_eq!(trie.get(&b("d")).unwrap(), None);
    assert_eq!(trie.get(&b("dogs")).unwrap(), None);
    assert_eq!(trie.get(&b("cat")).unwrap(), None);
}

#[test]
fn delete_removes_key() {
    let mut trie = Trie::new();
    trie.set(&b("do"), &b("verb")).unwrap();
    trie.set(&b("dog"), &b("puppy")).unwrap();
    trie.set(&b("doge"), &b("coin")).unwrap();
    trie.delete(&b("dog")).unwrap();
    assert_eq!(trie.get(&b("dog")).unwrap(), None);
    assert_eq!(trie.get(&b("do")).unwrap(), Some(b("verb")));
    assert_eq!(trie.get(&b("doge")).unwrap(), Some(b("coin")));
    trie.delete(&b("do")).unwrap();
    trie.delete(&b("doge")).unwrap();
    assert!(trie.root_hash().is_empty());
}

#[test]
fn delete_of_absent_key_keeps_root() {
    let mut trie = Trie::new();
    trie.set(&b("alpha"), &b("1")).unwrap();
    let before = trie.root_hash();
    let after = trie.delete(&b("beta")).unwrap();
    assert_eq!(before, after);
}

#[test]
fn empty_value_is_stored() {
    let mut trie = Trie::new();
    trie.set(&b("alpha"), &b("1")).unwrap();
    trie.set(&b("alpha"), &b("")).unwrap();
    assert_eq!(trie.get(&b("alpha")).unwrap(), Some(Vec::new()));
    let mut fresh = Trie::new();
    fresh.set(&vec![0x01], &vec![]).unwrap();
    assert_eq!(fresh.get_root_node().unwrap(), Node::Leaf { path: vec![0, 1], value: vec![] });
    assert_eq!(fresh.get(&vec![0x01]).unwrap(), Some(Vec::new()));
}

#[test]
fn set_twice_gives_same_root() {
    let mut trie = Trie::new();
    trie.set(&b("key"), &b("value")).unwrap();
    trie.set(&b("other"), &b("thing")).unwrap();
    let once = trie.set(&b("key"), &b("value")).unwrap();
    let twice = trie.set(&b("key"), &b("value")).unwrap();
    assert_eq!(once, twice);
}

#[test]
fn insertion_order_does_not_matter() {
    let pairs = [("do", "verb"), ("dog", "puppy"), ("doge", "coin"), ("horse", "stallion"), ("", "root")];
    let mut forward = Trie::new();
    for (k, v) in pairs.iter() {
        forward.set(&b(k), &b(v)).unwrap();
    }
    let mut backward = Trie::new();
    for (k, v) in pairs.iter().rev() {
        backward.set(&b(k), &b(v)).unwrap();
    }
    assert_eq!(forward.root_hash(), backward.root_hash());
}

#[test]
fn delete_restores_earlier_root() {
    let mut trie = Trie::new();
    trie.set(&b("do"), &b("verb")).unwrap();
    trie.set(&b("horse"), &b("stallion")).unwrap();
    let before = trie.root_hash();
    trie.set(&b("dog"), &b("puppy")).unwrap();
    let after = trie.delete(&b("dog")).unwrap();
    assert_eq!(before, after);
}

#[test]
fn prior_root_stays_readable() {
    let mut trie = Trie::new();
    trie.set(&b("do"), &b("verb")).unwrap();
    let old_root = trie.set(&b("dog"), &b("puppy")).unwrap();
    trie.set(&b("dog"), &b("hound")).unwrap();
    trie.set(&b("cat"), &b("kitten")).unwrap();
    assert_eq!(trie.get(&b("dog")).unwrap(), Some(b("hound")));
    trie.set_root(old_root);
    assert_eq!(trie.get(&b("dog")).unwrap(), Some(b("puppy")));
    assert_eq!(trie.get(&b("cat")).unwrap(), None);
}

#[test]
fn large_node_is_referenced_by_digest() {
    let mut trie = Trie::new();
    let value = vec![0x42u8; 100];
    let root = trie.set(&b("key"), &value).unwrap();
    assert_eq!(root.len(), 32);
    assert_eq!(trie.get(&b("key")).unwrap(), Some(value));
}

#[test]
fn small_node_is_inline() {
    let mut trie = Trie::new();
    let root = trie.set(&vec![0x01], &vec![0x02]).unwrap();
    // A leaf with path [0, 1]: hex-prefix [0x20, 0x01], value [0x02].
    assert_eq!(root, vec![0xc4, 0x82, 0x20, 0x01, 0x02]);
}

#[test]
fn dangling_reference_is_an_error() {
    let mut trie = Trie::new();
    trie.set_root(vec![7u8; 32]);
    assert_eq!(trie.get(&b("x")).err(), Some(TrieError::DanglingReference));
}

#[test]
fn corrupt_root_is_an_error() {
    let mut trie = Trie::new();
    trie.set_root(vec![0x83, 0x64]);
    assert_eq!(trie.get(&b("x")).err(), Some(TrieError::CorruptNode));
    trie.set_root(vec![7u8; 33]);
    assert_eq!(trie.get(&b("x")).err(), Some(TrieError::CorruptNode));
}

#[test]
fn many_keys_round_trip() {
    let mut trie = Trie::new();
    for i in 0u32..200 {
        let key = (i * 7919).to_be_bytes().to_vec();
        trie.set(&key, &i.to_le_bytes().to_vec()).unwrap();
    }
    for i in 0u32..200 {
        let key = (i * 7919).to_be_bytes().to_vec();
        assert_eq!(trie.get(&key).unwrap(), Some(i.to_le_bytes().to_vec()));
    }
    for i in (0u32..200).filter(|i| i % 2 == 0) {
        let key = (i * 7919).to_be_bytes().to_vec();
        trie.delete(&key).unwrap();
    }
    for i in 0u32..200 {
        let key = (i * 7919).to_be_bytes().to_vec();
        let want = if i % 2 == 0 { None } else { Some(i.to_le_bytes().to_vec()) };
        assert_eq!(trie.get(&key).unwrap(), want);
    }
    let mut fresh = Trie::new();
    for i in (0u32..200).filter(|i| i % 2 == 1).rev() {
        let key = (i * 7919).to_be_bytes().to_vec();
        fresh.set(&key, &i.to_le_bytes().to_vec()).unwrap();
    }
    assert_eq!(fresh.root_hash(), trie.root_hash());
}

#[test]
fn node_codec_round_trip() {
    let leaf = Node::Leaf { path: vec![1, 2, 3], value: b("v") };
    let bytes = Rlpable::encode(leaf.clone()).encode();
    assert_eq!(bytes.clone().to_vec(), vec![0xc4, 0x82, 0x31, 0x23, 0x76]);
    assert_eq!(<Node as Rlpable>::decode(bytes), Some(leaf));
    let mut children = vec![Vec::new(); 16];
    children[3] = vec![0xc2, 0x20, 0x01];
    let branch = Node::Branch { children, value: Some(b("x")) };
    let bytes = Rlpable::encode(branch.clone()).encode();
    assert_eq!(<Node as Rlpable>::decode(bytes), Some(branch));
    assert_eq!(<Node as Rlpable>::decode(RlpDecodable::new(vec![0xc1, 0x80])), None);
    assert_eq!(<Node as Rlpable>::decode(RlpDecodable::new(vec![0x80])), Some(Node::Blank));
    assert_eq!(
        <Node as Rlpable>::decode(RlpDecodable::new(vec![0xc2, 0x20, 0x80])),
        Some(Node::Leaf { path: vec![], value: vec![] })
    );
}

#[test]
fn terminal_nodes() {
    assert!(Node::Blank.is_terminal());
    assert!(Node::Leaf { path: vec![], value: b("v") }.is_terminal());
    assert!(!Node::Extension { path: vec![1], child: vec![] }.is_terminal());
    assert!(!Node::Branch { children: vec![Vec::new(); 16], value: None }.is_terminal());
}

#[test]
fn update_replaces_value() {
    let mut trie = Trie::new();
    trie.set(&b("key"), &b("one")).unwrap();
    trie.update(&b("key"), &b("two")).unwrap();
    assert_eq!(trie.get(&b("key")).unwrap(), Some(b("two")));
}

#[test]
fn empty_key_is_stored_at_the_root_path() {
    let mut trie = Trie::new();
    trie.set(&b(""), &b("root")).unwrap();
    trie.set(&b("a"), &b("x")).unwrap();
    assert_eq!(trie.get(&b("")).unwrap(), Some(b("root")));
    assert_eq!(trie.get(&b("a")).unwrap(), Some(b("x")));
    trie.delete(&b("")).unwrap();
    assert_eq!(trie.get(&b("")).unwrap(), None);
    assert_eq!(trie.get(&b("a")).unwrap(), Some(b("x")));
}
