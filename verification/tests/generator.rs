use merkle_stream::Generator;
use merkle_stream::HashError;
use merkle_stream::Hasher;
use merkle_stream::Node;
use merkle_stream::NodeView;
use ring::digest;
use vstd::seq::Seq;

struct Sha256;

fn leaf(leaf: &Node, _roots: &Vec<Node>) -> Vec<u8> {
    let data = leaf.data.clone().unwrap();
    digest::digest(&digest::SHA256, data.as_slice()).as_ref().to_vec()
}

fn parent(a: &Node, b: &Node) -> Vec<u8> {
    let mut hash = a.hash.clone();
    hash.extend(b.hash.iter().cloned());

    digest::digest(&digest::SHA256, hash.as_slice()).as_ref().to_vec()
}

impl Hasher for Sha256 {
    // The ghost members below describe the digests to the verifier; they
    // are erased from every verified caller and never run.
    fn leaf_hash(&self, _leaf: NodeView, _roots: Seq<NodeView>) -> Seq<u8> {
        unreachable!()
    }

    fn leaf_hash_ok(&self, _leaf: NodeView, _roots: Seq<NodeView>) -> bool {
        unreachable!()
    }

    fn parent_hash(&self, _left: NodeView, _right: NodeView) -> Seq<u8> {
        unreachable!()
    }

    fn parent_hash_ok(&self, _left: NodeView, _right: NodeView) -> bool {
        unreachable!()
    }

    fn hash_leaf(&self, node: &Node, roots: &Vec<Node>) -> Result<Vec<u8>, HashError> {
        Ok(leaf(node, roots))
    }

    fn hash_parent(&self, left: &Node, right: &Node) -> Result<Vec<u8>, HashError> {
        Ok(parent(left, right))
    }
}

#[test]
fn gen1() {
    let mut gen = Generator::new(Sha256);
    let nodes = gen.next(b"Hello World".to_vec()).unwrap();
    assert_eq!(nodes.len(), 1);
    assert_eq!(nodes[0].index, 0);
    assert_eq!(nodes[0].parent, 1);
    let data = nodes[0].data.clone().unwrap();
    assert_eq!(data, b"Hello World");
    let hash = digest::digest(&digest::SHA256, b"Hello World").as_ref().to_vec();
    assert_eq!(nodes[0].hash, hash);
}

#[test]
fn gen2() {
    let mut gen = Generator::new(Sha256);
    let nodes = gen.next(b"Hello".to_vec()).unwrap();
    let n1 = nodes[0].clone();
    assert_eq!(nodes[0].index, 0);
    assert_eq!(nodes[0].parent, 1);
    let data = nodes[0].data.clone().unwrap();
    assert_eq!(data, b"Hello");
    let hash = digest::digest(&digest::SHA256, b"Hello").as_ref().to_vec();
    assert_eq!(nodes[0].hash, hash);

    let nodes = gen.next(b"World".to_vec()).unwrap();
    let n2 = nodes[0].clone();
    assert_eq!(nodes[0].index, 2);
    assert_eq!(nodes[0].parent, 1);
    let data = nodes[0].data.clone().unwrap();
    assert_eq!(data, b"World");
    let hash = digest::digest(&digest::SHA256, b"World").as_ref().to_vec();
    assert_eq!(nodes[0].hash, hash);

    assert_eq!(nodes[1].index, 1);
    assert_eq!(nodes[1].parent, 3);
    assert!(nodes[1].data.is_none());
    let hash = parent(&n1, &n2);
    assert_eq!(nodes[1].hash, hash);
}

#[test]
fn roots_follow_popcount() {
    let mut gen = Generator::new(Sha256);
    for n in 1u32..=64 {
        gen.next(vec![n as u8]).unwrap();
        assert_eq!(gen.roots.len() as u32, n.count_ones());
    }
}

#[test]
fn leaf_index_is_twice_block_number() {
    let mut gen = Generator::new(Sha256);
    for k in 0u64..20 {
        let nodes = gen.next(vec![k as u8, 1, 2]).unwrap();
        assert_eq!(nodes[0].index, 2 * k);
        assert!(nodes[0].data.is_some());
    }
}

#[test]
fn replay_is_bit_identical() {
    let blocks: Vec<Vec<u8>> = vec![
        b"one".to_vec(),
        b"".to_vec(),
        b"three".to_vec(),
        b"4".to_vec(),
        b"five five".to_vec(),
    ];
    let mut g1 = Generator::new(Sha256);
    let mut g2 = Generator::new(Sha256);
    for block in &blocks {
        let n1 = g1.next(block.clone()).unwrap();
        let n2 = g2.next(block.clone()).unwrap();
        assert_eq!(n1.len(), n2.len());
        for (a, b) in n1.iter().zip(n2.iter()) {
            assert_eq!(a.index, b.index);
            assert_eq!(a.parent, b.parent);
            assert_eq!(a.hash, b.hash);
            assert_eq!(a.data, b.data);
            assert_eq!(a.size, b.size);
        }
    }
}

#[test]
fn single_root_size_is_total_length() {
    let lengths: Vec<usize> = vec![11, 0, 7, 3, 20, 1, 2, 5];
    let mut gen = Generator::new(Sha256);
    for (i, len) in lengths.iter().enumerate() {
        gen.next(vec![i as u8; *len]).unwrap();
    }
    // eight blocks: a power of two, so the forest collapses to one root
    assert_eq!(gen.roots.len(), 1);
    let total: usize = lengths.iter().sum();
    assert_eq!(gen.roots[0].size, total);
}

#[test]
fn merges_exactly_when_parents_match() {
    // per append, the number of emitted nodes is one more than the number
    // of merges: 1 + (trailing one bits of the previous block count)
    let expected: Vec<usize> = vec![1, 2, 1, 3, 1, 2, 1, 4];
    let mut gen = Generator::new(Sha256);
    for (i, want) in expected.iter().enumerate() {
        let nodes = gen.next(vec![i as u8]).unwrap();
        assert_eq!(nodes.len(), *want);
        // each merge really folded a sibling pair: every emitted parent's
        // index is the shared parent position of the pair below it
        for w in nodes.windows(2) {
            assert_eq!(w[1].index, w[0].parent);
        }
        // and no sibling pair is left standing
        for pair in gen.roots.windows(2) {
            assert_ne!(pair[0].parent, pair[1].parent);
        }
    }
}

#[test]
fn empty_block_is_a_valid_leaf() {
    let mut gen = Generator::new(Sha256);
    let nodes = gen.next(Vec::new()).unwrap();
    assert_eq!(nodes.len(), 1);
    assert_eq!(nodes[0].size, 0);
    assert_eq!(nodes[0].data.clone().unwrap(), Vec::<u8>::new());
    let hash = digest::digest(&digest::SHA256, b"").as_ref().to_vec();
    assert_eq!(nodes[0].hash, hash);
}

struct AlwaysFails;

impl Hasher for AlwaysFails {
    // The ghost members below describe the digests to the verifier; they
    // are erased from every verified caller and never run.
    fn leaf_hash(&self, _leaf: NodeView, _roots: Seq<NodeView>) -> Seq<u8> {
        unreachable!()
    }

    fn leaf_hash_ok(&self, _leaf: NodeView, _roots: Seq<NodeView>) -> bool {
        unreachable!()
    }

    fn parent_hash(&self, _left: NodeView, _right: NodeView) -> Seq<u8> {
        unreachable!()
    }

    fn parent_hash_ok(&self, _left: NodeView, _right: NodeView) -> bool {
        unreachable!()
    }

    fn hash_leaf(&self, _node: &Node, _roots: &Vec<Node>) -> Result<Vec<u8>, HashError> {
        Err(HashError)
    }

    fn hash_parent(&self, _left: &Node, _right: &Node) -> Result<Vec<u8>, HashError> {
        Err(HashError)
    }
}

#[test]
fn failing_leaf_hash_leaves_state_unchanged() {
    let mut gen = Generator::new(AlwaysFails);
    assert!(matches!(gen.next(b"data".to_vec()), Err(HashError)));
    assert_eq!(gen.blocks, 0);
    assert_eq!(gen.roots.len(), 0);
    // retrying verbatim is safe and fails the same way
    assert!(matches!(gen.next(b"data".to_vec()), Err(HashError)));
    assert_eq!(gen.blocks, 0);
    assert_eq!(gen.roots.len(), 0);
}

struct ParentFails;

impl Hasher for ParentFails {
    // The ghost members below describe the digests to the verifier; they
    // are erased from every verified caller and never run.
    fn leaf_hash(&self, _leaf: NodeView, _roots: Seq<NodeView>) -> Seq<u8> {
        unreachable!()
    }

    fn leaf_hash_ok(&self, _leaf: NodeView, _roots: Seq<NodeView>) -> bool {
        unreachable!()
    }

    fn parent_hash(&self, _left: NodeView, _right: NodeView) -> Seq<u8> {
        unreachable!()
    }

    fn parent_hash_ok(&self, _left: NodeView, _right: NodeView) -> bool {
        unreachable!()
    }

    fn hash_leaf(&self, node: &Node, roots: &Vec<Node>) -> Result<Vec<u8>, HashError> {
        Ok(leaf(node, roots))
    }

    fn hash_parent(&self, _left: &Node, _right: &Node) -> Result<Vec<u8>, HashError> {
        Err(HashError)
    }
}

#[test]
fn failing_parent_hash_applies_no_partial_merge() {
    let mut gen = Generator::new(ParentFails);
    gen.next(b"Hello".to_vec()).unwrap();
    let root_hash = gen.roots[0].hash.clone();
    // the second append would merge, so it must fail and change nothing
    assert!(matches!(gen.next(b"World".to_vec()), Err(HashError)));
    assert_eq!(gen.blocks, 1);
    assert_eq!(gen.roots.len(), 1);
    assert_eq!(gen.roots[0].index, 0);
    assert_eq!(gen.roots[0].hash, root_hash);
}
