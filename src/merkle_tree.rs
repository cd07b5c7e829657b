//! Merkle trees over leaf digests, the pruned diff of two such trees, and
//! the anchoring of a tree's root in the ledger.
use vstd::prelude::*;

use crate::digest::{hex_lower, lemma_hex_lower_len, sha256, sha256_of, to_hex};
use crate::blockchain::{clone_strings, header_hash, Blockchain};
use crate::IntegrityError;
use vstd::string::StringExecFns;
use vstd::utf8::encode_utf8;

verus! {

/// The mathematical shape of a Merkle tree.
///
/// Every internal node has two children. A level of odd length pairs its
/// last node with itself: that parent is a `Twin` node, whose right child is
/// a copy of its left. The copy is part of the tree's structure and digest,
/// but its leaves are not counted a second time.
pub enum Tree {
    Leaf { digest: Seq<u8> },
    Branch { digest: Seq<u8>, left: Box<Tree>, right: Box<Tree> },
    Twin { digest: Seq<u8>, left: Box<Tree>, right: Box<Tree> },
}

impl Tree {
    pub open spec fn digest(self) -> Seq<u8> {
        match self {
            Tree::Leaf { digest } => digest,
            Tree::Branch { digest, .. } => digest,
            Tree::Twin { digest, .. } => digest,
        }
    }

    /// The number of original leaves below this node; the copy under a
    /// `Twin` node adds none.
    pub open spec fn leaf_count(self) -> nat
        decreases self,
    {
        match self {
            Tree::Leaf { .. } => 1,
            Tree::Branch { left, right, .. } => left.leaf_count() + right.leaf_count(),
            Tree::Twin { left, .. } => left.leaf_count(),
        }
    }

    /// The number of nodes, copies included.
    pub open spec fn node_count(self) -> nat
        decreases self,
    {
        match self {
            Tree::Leaf { .. } => 1,
            Tree::Branch { left, right, .. } => 1 + left.node_count() + right.node_count(),
            Tree::Twin { left, right, .. } => 1 + left.node_count() + right.node_count(),
        }
    }

    /// The digests of all nodes in pre-order: node, left subtree, right subtree.
    pub open spec fn preorder(self) -> Seq<Seq<u8>>
        decreases self,
    {
        match self {
            Tree::Leaf { digest } => seq![digest],
            Tree::Branch { digest, left, right } => seq![digest] + left.preorder() + right.preorder(),
            Tree::Twin { digest, left, right } => seq![digest] + left.preorder() + right.preorder(),
        }
    }
}

/// The parent of two adjacent nodes.
pub open spec fn join(l: Tree, r: Tree) -> Tree {
    Tree::Branch { digest: sha256_of(l.digest() + r.digest()), left: Box::new(l), right: Box::new(r) }
}

/// The parent of the last node of an odd level, paired with a copy of itself.
pub open spec fn solo(c: Tree) -> Tree {
    Tree::Twin { digest: sha256_of(c.digest() + c.digest()), left: Box::new(c), right: Box::new(c) }
}

/// The level above `level`: consecutive pairs joined, an odd last node paired with itself.
pub open spec fn pair_up(level: Seq<Tree>) -> Seq<Tree> {
    Seq::new(
        ((level.len() + 1) / 2) as nat,
        |j: int|
            if 2 * j + 1 < level.len() {
                join(level[2 * j], level[2 * j + 1])
            } else {
                solo(level[2 * j])
            },
    )
}

/// The single node that level-by-level pairing of a non-empty level ends in.
pub open spec fn build(level: Seq<Tree>) -> Tree
    decreases level.len(),
{
    if level.len() <= 1 {
        level[0]
    } else {
        build(pair_up(level))
    }
}

/// Leaf nodes for a sequence of leaf digests.
pub open spec fn leaf_level(leaves: Seq<Seq<u8>>) -> Seq<Tree> {
    leaves.map_values(|d: Seq<u8>| Tree::Leaf { digest: d })
}

/// The Merkle tree over a sequence of leaf digests; none for no leaves.
pub open spec fn merkle(leaves: Seq<Seq<u8>>) -> Option<Tree> {
    if leaves.len() == 0 {
        None
    } else {
        Some(build(leaf_level(leaves)))
    }
}

/// The total number of original leaves below the nodes of a level.
pub open spec fn level_leaves(level: Seq<Tree>) -> nat
    decreases level.len(),
{
    if level.len() == 0 {
        0
    } else {
        level[0].leaf_count() + level_leaves(level.drop_first())
    }
}

proof fn lemma_level_leaves_two(level: Seq<Tree>, i: int, j: int)
    requires
        0 <= i < j < level.len(),
    ensures
        level[i].leaf_count() + level[j].leaf_count() <= level_leaves(level),
        level[i].leaf_count() <= level_leaves(level),
    decreases level.len(),
{
    if i > 0 {
        lemma_level_leaves_two(level.drop_first(), i - 1, j - 1);
    } else {
        lemma_level_leaves_one(level.drop_first(), j - 1);
    }
}

proof fn lemma_level_leaves_one(level: Seq<Tree>, i: int)
    requires
        0 <= i < level.len(),
    ensures
        level[i].leaf_count() <= level_leaves(level),
    decreases level.len(),
{
    if i > 0 {
        lemma_level_leaves_one(level.drop_first(), i - 1);
    }
}

proof fn lemma_pair_up_leaves(level: Seq<Tree>)
    ensures
        level_leaves(pair_up(level)) == level_leaves(level),
    decreases level.len(),
{
    let p = pair_up(level);
    if level.len() == 0 {
        assert(p.len() == 0);
    } else if level.len() == 1 {
        assert(p.len() == 1);
        assert(p[0] == solo(level[0]));
        assert(level_leaves(p.drop_first()) == 0);
        assert(level_leaves(level.drop_first()) == 0);
    } else {
        let rest = level.subrange(2, level.len() as int);
        lemma_pair_up_leaves(rest);
        assert(p[0] == join(level[0], level[1]));
        assert(p.drop_first() =~= pair_up(rest));
        assert(level.drop_first().drop_first() =~= rest);
        assert(level_leaves(level.drop_first())
            == level[1].leaf_count() + level_leaves(level.drop_first().drop_first()));
    }
}

proof fn lemma_build_leaves(level: Seq<Tree>)
    requires
        level.len() > 0,
    ensures
        build(level).leaf_count() == level_leaves(level),
    decreases level.len(),
{
    if level.len() <= 1 {
        assert(level_leaves(level.drop_first()) == 0);
    } else {
        lemma_pair_up_leaves(level);
        lemma_build_leaves(pair_up(level));
    }
}

proof fn lemma_leaf_level_leaves(leaves: Seq<Seq<u8>>)
    ensures
        level_leaves(leaf_level(leaves)) == leaves.len(),
    decreases leaves.len(),
{
    if leaves.len() > 0 {
        lemma_leaf_level_leaves(leaves.drop_first());
        assert(leaf_level(leaves).drop_first() =~= leaf_level(leaves.drop_first()));
    }
}

/// A tree over a non-empty sequence of leaves counts exactly those leaves:
/// the implicit copies made by the odd-level tie-break add none.
pub proof fn lemma_leaf_count_is_length(leaves: Seq<Seq<u8>>)
    requires
        leaves.len() > 0,
    ensures
        merkle(leaves).unwrap().leaf_count() == leaves.len(),
{
    lemma_leaf_level_leaves(leaves);
    lemma_build_leaves(leaf_level(leaves));
}

/// The bytes of `a` followed by the bytes of `b`.
fn concat_bytes(a: &[u8], b: &[u8]) -> (r: Vec<u8>)
    ensures
        r@ == a@ + b@,
{
    let mut r: Vec<u8> = Vec::new();
    let mut i: usize = 0;
    while i < a.len()
        invariant
            i <= a@.len(),
            r@ == a@.subrange(0, i as int),
        decreases a@.len() - i,
    {
        r.push(a[i]);
        i = i + 1;
    }
    let mut j: usize = 0;
    while j < b.len()
        invariant
            j <= b@.len(),
            r@ == a@ + b@.subrange(0, j as int),
        decreases b@.len() - j,
    {
        r.push(b[j]);
        j = j + 1;
    }
    assert(a@.subrange(0, a@.len() as int) == a@);
    assert(b@.subrange(0, b@.len() as int) == b@);
    r
}

/// Whether two byte strings are equal.
fn same_bytes(a: &[u8], b: &[u8]) -> (r: bool)
    ensures
        r == (a@ == b@),
{
    if a.len() != b.len() {
        return false;
    }
    let mut i: usize = 0;
    while i < a.len()
        invariant
            a@.len() == b@.len(),
            i <= a@.len(),
            forall|k: int| 0 <= k < i ==> a@[k] == b@[k],
        decreases a@.len() - i,
    {
        if a[i] != b[i] {
            return false;
        }
        i = i + 1;
    }
    assert(a@ =~= b@);
    true
}

/// A node of the tree. An internal node owns both children; where `copied`
/// holds, its right child is a copy of its left.
struct Node {
    hash: Vec<u8>,
    left: Option<Box<Node>>,
    right: Option<Box<Node>>,
    num_leaves: usize,
    copied: bool,
}

impl Node {
    spec fn model(self) -> Tree
        decreases self,
    {
        match self.left {
            Some(l) => match self.right {
                Some(r) => if self.copied {
                    Tree::Twin { digest: self.hash@, left: Box::new(l.model()), right: Box::new(r.model()) }
                } else {
                    Tree::Branch { digest: self.hash@, left: Box::new(l.model()), right: Box::new(r.model()) }
                },
                None => Tree::Leaf { digest: self.hash@ },
            },
            None => Tree::Leaf { digest: self.hash@ },
        }
    }

    spec fn wf(self) -> bool
        decreases self,
    {
        &&& self.hash@.len() == 32
        &&& self.num_leaves == self.model().leaf_count()
        &&& (self.left is None <==> self.right is None)
        &&& (self.copied ==> self.left is Some && self.right.unwrap().model() == self.left.unwrap().model())
        &&& match self.left {
            Some(l) => l.wf(),
            None => true,
        }
        &&& match self.right {
            Some(r) => r.wf(),
            None => true,
        }
    }

    /// A leaf node over one leaf digest.
    fn new(hash: Vec<u8>) -> (r: Node)
        requires
            hash@.len() == 32,
        ensures
            r.wf(),
            r.model() == (Tree::Leaf { digest: hash@ }),
    {
        Node { hash, left: None, right: None, num_leaves: 1, copied: false }
    }

    /// A deep copy of a subtree.
    fn duplicate(&self) -> (r: Node)
        requires
            self.wf(),
        ensures
            r.wf(),
            r.model() == self.model(),
        decreases self,
    {
        let left = match &self.left {
            Some(l) => Some(Box::new(l.duplicate())),
            None => None,
        };
        let right = match &self.right {
            Some(r) => Some(Box::new(r.duplicate())),
            None => None,
        };
        Node { hash: copy_bytes(&self.hash), left, right, num_leaves: self.num_leaves, copied: self.copied }
    }

    /// The parent of two adjacent nodes.
    fn join(left: Node, right: Node) -> (r: Node)
        requires
            left.wf(),
            right.wf(),
            left.model().leaf_count() + right.model().leaf_count() <= usize::MAX,
        ensures
            r.wf(),
            r.model() == join(left.model(), right.model()),
    {
        let buf = concat_bytes(left.hash.as_slice(), right.hash.as_slice());
        let hash = sha256(buf.as_slice());
        let num_leaves = left.num_leaves + right.num_leaves;
        Node { hash, left: Some(Box::new(left)), right: Some(Box::new(right)), num_leaves, copied: false }
    }

    /// The parent of the last node of an odd level, paired with a copy of itself.
    fn solo(child: Node) -> (r: Node)
        requires
            child.wf(),
        ensures
            r.wf(),
            r.model() == solo(child.model()),
    {
        let buf = concat_bytes(child.hash.as_slice(), child.hash.as_slice());
        let hash = sha256(buf.as_slice());
        let num_leaves = child.num_leaves;
        let copy = child.duplicate();
        Node { hash, left: Some(Box::new(child)), right: Some(Box::new(copy)), num_leaves, copied: true }
    }
}

spec fn models(nodes: Seq<Node>) -> Seq<Tree> {
    nodes.map_values(|n: Node| n.model())
}

/// Pairs a non-empty level repeatedly until one node is left.
fn build_level(nodes: Vec<Node>) -> (r: Node)
    requires
        nodes@.len() > 0,
        forall|i: int| 0 <= i < nodes@.len() ==> (#[trigger] nodes@[i]).wf(),
        level_leaves(models(nodes@)) <= usize::MAX,
    ensures
        r.wf(),
        r.model() == build(models(nodes@)),
{
    let mut level = nodes;
    while level.len() > 1
        invariant
            level@.len() > 0,
            forall|i: int| 0 <= i < level@.len() ==> (#[trigger] level@[i]).wf(),
            level_leaves(models(level@)) == level_leaves(models(nodes@)),
            level_leaves(models(nodes@)) <= usize::MAX,
            build(models(level@)) == build(models(nodes@)),
        decreases level@.len(),
    {
        let ghost cur = models(level@);
        let ghost n = level@.len();
        let mut next: Vec<Node> = Vec::new();
        let mut pending: Option<Node> = None;
        for node in it: level.into_iter()
            invariant
                models(it.seq()) == cur,
                it.seq().len() == n,
                n > 1,
                forall|i: int| 0 <= i < n ==> (#[trigger] it.seq()[i]).wf(),
                level_leaves(cur) <= usize::MAX,
                next@.len() == it.index() / 2,
                forall|j: int| 0 <= j < next@.len() ==> (#[trigger] next@[j]).wf(),
                forall|j: int| 0 <= j < next@.len() ==> (#[trigger] next@[j]).model() == pair_up(cur)[j],
                it.index() % 2 == 0 ==> pending is None,
                it.index() % 2 == 1 ==> pending is Some && pending.unwrap() == it.seq()[it.index() - 1],
        {
            match pending {
                None => {
                    pending = Some(node);
                },
                Some(left) => {
                    proof {
                        lemma_level_leaves_two(cur, it.index() - 1, it.index() as int);
                    }
                    next.push(Node::join(left, node));
                    pending = None;
                },
            }
        }
        match pending {
            Some(last) => {
                next.push(Node::solo(last));
            },
            None => {},
        }
        proof {
            assert(models(next@) =~= pair_up(cur));
            lemma_pair_up_leaves(cur);
        }
        level = next;
    }
    let r = level.pop().unwrap();
    r
}

/// A Merkle tree built from an ordered sequence of leaf digests; empty for no
/// leaves. It is immutable once built.
pub struct MerkleTree {
    root: Option<Node>,
    leaves: Ghost<Seq<Seq<u8>>>,
}

impl View for MerkleTree {
    /// The leaf digests the tree was built from, in order.
    type V = Seq<Seq<u8>>;

    closed spec fn view(&self) -> Seq<Seq<u8>> {
        self.leaves@
    }
}

impl MerkleTree {
    /// The stored nodes are exactly the Merkle tree over the leaf digests.
    pub closed spec fn wf(&self) -> bool {
        &&& self.leaves@.len() <= usize::MAX
        &&& match self.root {
            Some(n) => n.wf() && merkle(self.leaves@) == Some(n.model()),
            None => self.leaves@.len() == 0,
        }
    }

    /// The tree's shape, as a function of its leaf digests.
    pub open spec fn tree(&self) -> Option<Tree> {
        merkle(self@)
    }

    /// Builds the tree over the given leaf digests.
    fn from_digests(digests: Vec<Vec<u8>>) -> (r: MerkleTree)
        requires
            forall|i: int| 0 <= i < digests@.len() ==> (#[trigger] digests@[i])@.len() == 32,
        ensures
            r.wf(),
            r@ == digests@.map_values(|d: Vec<u8>| d@),
            forall|i: int| 0 <= i < r@.len() ==> (#[trigger] r@[i]).len() == 32,
    {
        let ghost leaves = digests@.map_values(|d: Vec<u8>| d@);
        let n = digests.len();
        let mut nodes: Vec<Node> = Vec::new();
        for d in it: digests.into_iter()
            invariant
                it.seq() == digests@,
                forall|i: int| 0 <= i < digests@.len() ==> (#[trigger] digests@[i])@.len() == 32,
                nodes@.len() == it.index(),
                forall|i: int| 0 <= i < nodes@.len() ==> (#[trigger] nodes@[i]).wf(),
                forall|i: int| 0 <= i < nodes@.len() ==> (#[trigger] nodes@[i]).model() == (Tree::Leaf { digest: it.seq()[i]@ }),
        {
            nodes.push(Node::new(d));
        }
        if n == 0 {
            return MerkleTree { root: None, leaves: Ghost(leaves) };
        }
        proof {
            assert(models(nodes@) =~= leaf_level(leaves));
            lemma_leaf_level_leaves(leaves);
        }
        let root = build_level(nodes);
        MerkleTree { root: Some(root), leaves: Ghost(leaves) }
    }

    /// Builds the tree whose leaves are the digests of the given payloads.
    pub fn from_payloads(payloads: &Vec<Vec<u8>>) -> (r: MerkleTree)
        ensures
            r.wf(),
            r@ == payloads@.map_values(|p: Vec<u8>| sha256_of(p@)),
            forall|i: int| 0 <= i < r@.len() ==> (#[trigger] r@[i]).len() == 32,
    {
        let mut digests: Vec<Vec<u8>> = Vec::new();
        for i in 0..payloads.len()
            invariant
                digests@.len() == i,
                forall|k: int| 0 <= k < i ==> (#[trigger] digests@[k])@.len() == 32,
                forall|k: int| 0 <= k < i ==> (#[trigger] digests@[k])@ == sha256_of(payloads@[k]@),
        {
            digests.push(sha256(payloads[i].as_slice()));
        }
        let r = MerkleTree::from_digests(digests);
        assert(r@ =~= payloads@.map_values(|p: Vec<u8>| sha256_of(p@)));
        r
    }

    /// Builds the tree whose leaves are the digests of the UTF-8 bytes of the given strings.
    pub fn new(data: Vec<&str>) -> (r: MerkleTree)
        ensures
            r.wf(),
            r@ == data@.map_values(|s: &str| sha256_of(encode_utf8(s@))),
            forall|i: int| 0 <= i < r@.len() ==> (#[trigger] r@[i]).len() == 32,
    {
        let mut digests: Vec<Vec<u8>> = Vec::new();
        for i in 0..data.len()
            invariant
                digests@.len() == i,
                forall|k: int| 0 <= k < i ==> (#[trigger] digests@[k])@.len() == 32,
                forall|k: int| 0 <= k < i ==> (#[trigger] digests@[k])@ == sha256_of(encode_utf8(data@[k]@)),
        {
            digests.push(sha256(data[i].as_bytes()));
        }
        let r = MerkleTree::from_digests(digests);
        assert(r@ =~= data@.map_values(|s: &str| sha256_of(encode_utf8(s@))));
        r
    }

    /// The number of original leaves: the root's leaf count, or zero when empty.
    pub fn leaf_count(&self) -> (r: usize)
        requires
            self.wf(),
        ensures
            r == self@.len(),
    {
        match &self.root {
            Some(n) => {
                proof {
                    lemma_leaf_count_is_length(self@);
                }
                n.num_leaves
            },
            None => 0,
        }
    }

    /// The root digest, or none for the empty tree.
    pub fn root_digest(&self) -> (r: Option<Vec<u8>>)
        requires
            self.wf(),
        ensures
            r is None <==> self@.len() == 0,
            r is Some ==> r.unwrap()@ == self.tree().unwrap().digest(),
            r is Some ==> r.unwrap()@.len() == 32,
    {
        match &self.root {
            Some(n) => Some(copy_bytes(&n.hash)),
            None => None,
        }
    }

    /// The root digest in lowercase hex, or none for the empty tree.
    pub fn root_hex(&self) -> (r: Option<String>)
        requires
            self.wf(),
        ensures
            r is None <==> self@.len() == 0,
            r is Some ==> r.unwrap()@ == hex_lower(self.tree().unwrap().digest()),
            r is Some ==> r.unwrap()@.len() == 64,
    {
        match &self.root {
            Some(n) => {
                proof {
                    lemma_hex_lower_len(n.hash@);
                }
                Some(to_hex(n.hash.as_slice()))
            },
            None => None,
        }
    }
}

/// A fresh copy of a byte string.
fn copy_bytes(a: &Vec<u8>) -> (r: Vec<u8>)
    ensures
        r@ == a@,
{
    let mut r: Vec<u8> = Vec::new();
    for i in 0..a.len()
        invariant
            r@ == a@.subrange(0, i as int),
    {
        r.push(a[i]);
    }
    assert(a@.subrange(0, a@.len() as int) == a@);
    r
}

/// `n` match flags.
pub open spec fn zeros(n: nat) -> Seq<u32> {
    Seq::new(n, |i: int| 0u32)
}

/// `n` mismatch flags.
pub open spec fn ones(n: nat) -> Seq<u32> {
    Seq::new(n, |i: int| 1u32)
}

/// The pruned diff of two subtrees, left to right.
///
/// Equal digests certify every leaf below as a match without descending.
/// Otherwise two leaves are one mismatch, and internal nodes are compared
/// child by child. Where the shapes differ, every leaf on the reference side
/// without a counterpart counts as a mismatch, and candidate leaves without a
/// counterpart are not reported: the result has exactly one flag per leaf of
/// the reference.
pub open spec fn diff(a: Tree, b: Tree) -> Seq<u32>
    decreases a,
{
    if a.digest() == b.digest() {
        zeros(a.leaf_count())
    } else {
        match a {
            Tree::Branch { left: l1, right: r1, .. } => match b {
                Tree::Branch { left: l2, right: r2, .. } => diff(*l1, *l2) + diff(*r1, *r2),
                Tree::Twin { left: c2, .. } => diff(*l1, *c2) + ones(r1.leaf_count()),
                Tree::Leaf { .. } => ones(a.leaf_count()),
            },
            Tree::Twin { left: c1, .. } => match b {
                Tree::Branch { left: l2, .. } => diff(*c1, *l2),
                Tree::Twin { left: c2, .. } => diff(*c1, *c2),
                Tree::Leaf { .. } => ones(a.leaf_count()),
            },
            Tree::Leaf { .. } => ones(a.leaf_count()),
        }
    }
}

/// The tamper vector of the trees over two leaf sequences; empty when either has no leaves.
pub open spec fn tamper_vector(reference: Seq<Seq<u8>>, candidate: Seq<Seq<u8>>) -> Seq<u32> {
    match merkle(reference) {
        Some(x) => match merkle(candidate) {
            Some(y) => diff(x, y),
            None => seq![],
        },
        None => seq![],
    }
}

/// Appends `n` copies of `flag`.
fn push_flags(result: &mut Vec<u32>, flag: u32, n: usize)
    ensures
        final(result)@ == old(result)@ + Seq::new(n as nat, |i: int| flag),
{
    let ghost start = result@;
    for i in 0..n
        invariant
            result@ == start + Seq::new(i as nat, |k: int| flag),
    {
        result.push(flag);
        assert(result@ =~= start + Seq::new((i + 1) as nat, |k: int| flag));
    }
}

/// Appends the pruned diff of two subtrees.
fn compare_nodes_merkle(node1: &Node, node2: &Node, result: &mut Vec<u32>)
    requires
        node1.wf(),
        node2.wf(),
    ensures
        final(result)@ == old(result)@ + diff(node1.model(), node2.model()),
        final(result)@.len() == old(result)@.len() + node1.model().leaf_count(),
    decreases node1,
{
    let ghost start = result@;
    if same_bytes(node1.hash.as_slice(), node2.hash.as_slice()) {
        push_flags(result, 0, node1.num_leaves);
        assert(zeros(node1.model().leaf_count()) =~= Seq::new(node1.num_leaves as nat, |i: int| 0u32));
        return;
    }
    match (&node1.left, &node1.right, &node2.left, &node2.right) {
        (Some(l1), Some(r1), Some(l2), Some(r2)) => {
            compare_nodes_merkle(l1, l2, result);
            if !node1.copied && !node2.copied {
                compare_nodes_merkle(r1, r2, result);
            } else if !node1.copied {
                assert(r1.wf());
                push_flags(result, 1, r1.num_leaves);
                assert(ones(r1.model().leaf_count()) =~= Seq::new(r1.num_leaves as nat, |i: int| 1u32));
            }
            assert(result@ =~= start + diff(node1.model(), node2.model()));
            proof {
                lemma_diff_len(node1.model(), node2.model());
            }
        },
        _ => {
            push_flags(result, 1, node1.num_leaves);
            assert(ones(node1.model().leaf_count()) =~= Seq::new(node1.num_leaves as nat, |i: int| 1u32));
            assert(result@ =~= start + diff(node1.model(), node2.model()));
        },
    }
}

/// Compares a reference tree with a candidate tree and returns the tamper
/// vector: one flag per leaf in leaf order, 0 for a match and 1 for a
/// mismatch. Trees with different leaf counts are refused.
pub fn compare_merkle_trees(tree1: &MerkleTree, tree2: &MerkleTree) -> (r: Result<Vec<u32>, IntegrityError>)
    requires
        tree1.wf(),
        tree2.wf(),
    ensures
        r is Err <==> tree1@.len() != tree2@.len(),
        r is Err ==> r == Err::<Vec<u32>, IntegrityError>(IntegrityError::LeafCountMismatch),
        r is Ok ==> r.unwrap()@ == tamper_vector(tree1@, tree2@),
        r is Ok ==> r.unwrap()@.len() == tree1@.len(),
{
    if tree1.leaf_count() != tree2.leaf_count() {
        return Err(IntegrityError::LeafCountMismatch);
    }
    let mut result: Vec<u32> = Vec::new();
    match &tree1.root {
        Some(n1) => match &tree2.root {
            Some(n2) => {
                compare_nodes_merkle(n1, n2, &mut result);
                assert(result@ =~= tamper_vector(tree1@, tree2@));
                proof {
                    lemma_tamper_vector_len(tree1@, tree2@);
                }
            },
            None => {},
        },
        None => {},
    }
    Ok(result)
}

/// The leaf digests below a node, left to right; the copy under a `Twin` node left out.
pub open spec fn leaves_of(t: Tree) -> Seq<Seq<u8>>
    decreases t,
{
    match t {
        Tree::Leaf { digest } => seq![digest],
        Tree::Branch { left, right, .. } => leaves_of(*left) + leaves_of(*right),
        Tree::Twin { left, .. } => leaves_of(*left),
    }
}

/// Whether two trees have the same shape, whatever their digests.
pub open spec fn same_shape(a: Tree, b: Tree) -> bool
    decreases a,
{
    match a {
        Tree::Leaf { .. } => b is Leaf,
        Tree::Branch { left: l1, right: r1, .. } => match b {
            Tree::Branch { left: l2, right: r2, .. } => same_shape(*l1, *l2) && same_shape(*r1, *r2),
            _ => false,
        },
        Tree::Twin { left: c1, .. } => match b {
            Tree::Twin { left: c2, .. } => same_shape(*c1, *c2),
            _ => false,
        },
    }
}

/// No hash collision between corresponding nodes of two trees: wherever two
/// corresponding digests agree, the subtrees below them are identical.
pub open spec fn collision_free(a: Tree, b: Tree) -> bool
    decreases a,
{
    &&& (a.digest() == b.digest() ==> a == b)
    &&& match a {
        Tree::Branch { left: l1, right: r1, .. } => match b {
            Tree::Branch { left: l2, right: r2, .. } => collision_free(*l1, *l2) && collision_free(*r1, *r2),
            _ => true,
        },
        Tree::Twin { left: c1, .. } => match b {
            Tree::Twin { left: c2, .. } => collision_free(*c1, *c2),
            _ => true,
        },
        Tree::Leaf { .. } => true,
    }
}

/// One flag per position of two equally long leaf sequences: 0 where they agree, 1 where not.
pub open spec fn leafwise(a: Seq<Seq<u8>>, b: Seq<Seq<u8>>) -> Seq<u32> {
    Seq::new(a.len(), |i: int| if a[i] == b[i] { 0u32 } else { 1u32 })
}

proof fn lemma_leaves_of_len(t: Tree)
    ensures
        leaves_of(t).len() == t.leaf_count(),
    decreases t,
{
    match t {
        Tree::Leaf { .. } => {},
        Tree::Branch { left, right, .. } => {
            lemma_leaves_of_len(*left);
            lemma_leaves_of_len(*right);
        },
        Tree::Twin { left, .. } => {
            lemma_leaves_of_len(*left);
        },
    }
}

proof fn lemma_same_shape_count(a: Tree, b: Tree)
    requires
        same_shape(a, b),
    ensures
        a.leaf_count() == b.leaf_count(),
    decreases a,
{
    match a {
        Tree::Leaf { .. } => {},
        Tree::Branch { left: l1, right: r1, .. } => match b {
            Tree::Branch { left: l2, right: r2, .. } => {
                lemma_same_shape_count(*l1, *l2);
                lemma_same_shape_count(*r1, *r2);
            },
            _ => {},
        },
        Tree::Twin { left: c1, .. } => match b {
            Tree::Twin { left: c2, .. } => {
                lemma_same_shape_count(*c1, *c2);
            },
            _ => {},
        },
    }
}

proof fn lemma_diff_leafwise(a: Tree, b: Tree)
    requires
        same_shape(a, b),
        collision_free(a, b),
    ensures
        diff(a, b) == leafwise(leaves_of(a), leaves_of(b)),
    decreases a,
{
    lemma_leaves_of_len(a);
    lemma_leaves_of_len(b);
    lemma_same_shape_count(a, b);
    if a.digest() == b.digest() {
        assert(diff(a, b) =~= leafwise(leaves_of(a), leaves_of(b)));
    } else {
        match a {
            Tree::Leaf { .. } => {
                assert(diff(a, b) =~= leafwise(leaves_of(a), leaves_of(b)));
            },
            Tree::Branch { left: l1, right: r1, .. } => match b {
                Tree::Branch { left: l2, right: r2, .. } => {
                    lemma_diff_leafwise(*l1, *l2);
                    lemma_diff_leafwise(*r1, *r2);
                    lemma_leaves_of_len(*l1);
                    lemma_leaves_of_len(*l2);
                    lemma_same_shape_count(*l1, *l2);
                    assert(diff(a, b) =~= leafwise(leaves_of(a), leaves_of(b)));
                },
                _ => {},
            },
            Tree::Twin { left: c1, .. } => match b {
                Tree::Twin { left: c2, .. } => {
                    lemma_diff_leafwise(*c1, *c2);
                },
                _ => {},
            },
        }
    }
}

/// Whatever the candidate's shape, the diff has one flag per reference leaf.
pub proof fn lemma_diff_len(a: Tree, b: Tree)
    ensures
        diff(a, b).len() == a.leaf_count(),
    decreases a,
{
    if a.digest() != b.digest() {
        match a {
            Tree::Branch { left: l1, right: r1, .. } => match b {
                Tree::Branch { left: l2, right: r2, .. } => {
                    lemma_diff_len(*l1, *l2);
                    lemma_diff_len(*r1, *r2);
                },
                Tree::Twin { left: c2, .. } => {
                    lemma_diff_len(*l1, *c2);
                },
                _ => {},
            },
            Tree::Twin { left: c1, .. } => match b {
                Tree::Branch { left: l2, .. } => {
                    lemma_diff_len(*c1, *l2);
                },
                Tree::Twin { left: c2, .. } => {
                    lemma_diff_len(*c1, *c2);
                },
                _ => {},
            },
            Tree::Leaf { .. } => {},
        }
    }
}

/// Trees over equally many leaves give a tamper vector with one flag per leaf.
pub proof fn lemma_tamper_vector_len(reference: Seq<Seq<u8>>, candidate: Seq<Seq<u8>>)
    requires
        reference.len() == candidate.len(),
    ensures
        tamper_vector(reference, candidate).len() == reference.len(),
{
    if reference.len() > 0 {
        lemma_diff_len(merkle(reference).unwrap(), merkle(candidate).unwrap());
        lemma_leaf_count_is_length(reference);
    }
}

/// The leaf digests below the nodes of a level, left to right.
pub open spec fn level_digests(level: Seq<Tree>) -> Seq<Seq<u8>>
    decreases level.len(),
{
    if level.len() == 0 {
        seq![]
    } else {
        leaves_of(level[0]) + level_digests(level.drop_first())
    }
}

proof fn lemma_pair_up_digests(level: Seq<Tree>)
    ensures
        level_digests(pair_up(level)) == level_digests(level),
    decreases level.len(),
{
    let p = pair_up(level);
    if level.len() == 0 {
        assert(p.len() == 0);
    } else if level.len() == 1 {
        assert(p.len() == 1);
        assert(p[0] == solo(level[0]));
        assert(level_digests(p.drop_first()) == Seq::<Seq<u8>>::empty());
        assert(level_digests(level.drop_first()) == Seq::<Seq<u8>>::empty());
        assert(level_digests(p) =~= level_digests(level));
    } else {
        let rest = level.subrange(2, level.len() as int);
        lemma_pair_up_digests(rest);
        assert(p[0] == join(level[0], level[1]));
        assert(p.drop_first() =~= pair_up(rest));
        assert(level.drop_first().drop_first() =~= rest);
        assert(level_digests(level.drop_first())
            == leaves_of(level[1]) + level_digests(level.drop_first().drop_first()));
        assert(level_digests(p) =~= level_digests(level));
    }
}

proof fn lemma_build_digests(level: Seq<Tree>)
    requires
        level.len() > 0,
    ensures
        leaves_of(build(level)) == level_digests(level),
    decreases level.len(),
{
    if level.len() <= 1 {
        assert(level_digests(level.drop_first()) == Seq::<Seq<u8>>::empty());
        assert(leaves_of(build(level)) =~= level_digests(level));
    } else {
        lemma_pair_up_digests(level);
        lemma_build_digests(pair_up(level));
    }
}

proof fn lemma_leaf_level_digests(leaves: Seq<Seq<u8>>)
    ensures
        level_digests(leaf_level(leaves)) == leaves,
    decreases leaves.len(),
{
    if leaves.len() > 0 {
        lemma_leaf_level_digests(leaves.drop_first());
        assert(leaf_level(leaves).drop_first() =~= leaf_level(leaves.drop_first()));
        assert(level_digests(leaf_level(leaves)) =~= leaves);
    } else {
        assert(level_digests(leaf_level(leaves)) =~= leaves);
    }
}

/// Whether two levels are equally long and alike in shape position by position.
spec fn levels_alike(a: Seq<Tree>, b: Seq<Tree>) -> bool {
    &&& a.len() == b.len()
    &&& forall|i: int| 0 <= i < a.len() ==> same_shape(#[trigger] a[i], b[i])
}

proof fn lemma_build_alike(a: Seq<Tree>, b: Seq<Tree>)
    requires
        a.len() > 0,
        levels_alike(a, b),
    ensures
        same_shape(build(a), build(b)),
    decreases a.len(),
{
    if a.len() > 1 {
        let pa = pair_up(a);
        let pb = pair_up(b);
        assert forall|j: int| 0 <= j < pa.len() implies same_shape(#[trigger] pa[j], pb[j]) by {
            assert(same_shape(a[2 * j], b[2 * j]));
            if 2 * j + 1 < a.len() {
                assert(same_shape(a[2 * j + 1], b[2 * j + 1]));
            }
        }
        lemma_build_alike(pa, pb);
    }
}

/// Trees over equally many leaves have the same shape.
proof fn lemma_merkle_same_shape(a: Seq<Seq<u8>>, b: Seq<Seq<u8>>)
    requires
        a.len() == b.len(),
        a.len() > 0,
    ensures
        same_shape(merkle(a).unwrap(), merkle(b).unwrap()),
{
    lemma_build_alike(leaf_level(a), leaf_level(b));
}

/// Diffing a tree against itself gives one match flag per leaf, and nothing else.
pub proof fn lemma_self_diff_is_clean(leaves: Seq<Seq<u8>>)
    ensures
        tamper_vector(leaves, leaves) == zeros(leaves.len()),
{
    if leaves.len() > 0 {
        lemma_leaf_count_is_length(leaves);
    } else {
        assert(tamper_vector(leaves, leaves) =~= zeros(leaves.len()));
    }
}

/// For an odd number of leaves the copy made for the last node of each odd
/// level adds no leaf: the tree counts exactly the leaves, and its diff
/// against itself is exactly that many match flags.
pub proof fn lemma_odd_count_self_diff(leaves: Seq<Seq<u8>>)
    requires
        leaves.len() % 2 == 1,
    ensures
        merkle(leaves).unwrap().leaf_count() == leaves.len(),
        tamper_vector(leaves, leaves) == zeros(leaves.len()),
{
    lemma_leaf_count_is_length(leaves);
    lemma_self_diff_is_clean(leaves);
}

/// Where no two corresponding nodes of the two trees collide, the tamper
/// vector flags exactly the positions whose leaf digests differ.
pub proof fn lemma_tamper_vector_is_leafwise(reference: Seq<Seq<u8>>, candidate: Seq<Seq<u8>>)
    requires
        reference.len() == candidate.len(),
        reference.len() > 0,
        collision_free(merkle(reference).unwrap(), merkle(candidate).unwrap()),
    ensures
        tamper_vector(reference, candidate) == leafwise(reference, candidate),
{
    let x = merkle(reference).unwrap();
    let y = merkle(candidate).unwrap();
    lemma_merkle_same_shape(reference, candidate);
    lemma_diff_leafwise(x, y);
    lemma_build_digests(leaf_level(reference));
    lemma_build_digests(leaf_level(candidate));
    lemma_leaf_level_digests(reference);
    lemma_leaf_level_digests(candidate);
}

/// Changing one leaf digest, with no hash collision between corresponding
/// nodes, gives exactly one mismatch flag, at the changed position.
pub proof fn lemma_single_change_flags_one(leaves: Seq<Seq<u8>>, k: int, d: Seq<u8>)
    requires
        0 <= k < leaves.len(),
        d != leaves[k],
        collision_free(merkle(leaves).unwrap(), merkle(leaves.update(k, d)).unwrap()),
    ensures
        tamper_vector(leaves, leaves.update(k, d)) == zeros(leaves.len()).update(k, 1u32),
{
    lemma_tamper_vector_is_leafwise(leaves, leaves.update(k, d));
    assert(leafwise(leaves, leaves.update(k, d)) =~= zeros(leaves.len()).update(k, 1u32));
}

/// Two well-formed trees over the same leaf digests are identical, root digest included.
pub proof fn lemma_same_leaves_same_root(t1: &MerkleTree, t2: &MerkleTree)
    requires
        t1.wf(),
        t2.wf(),
        t1@ == t2@,
    ensures
        t1.tree() == t2.tree(),
        t1@.len() > 0 ==> t1.tree().unwrap().digest() == t2.tree().unwrap().digest(),
{
}

/// Two spaces per level of depth.
pub open spec fn indent(depth: nat) -> Seq<char> {
    Seq::new(2 * depth, |i: int| ' ')
}

/// The text rendering of a subtree at a depth: one line per node in
/// pre-order, each its digest in lowercase hex, indented by its depth.
pub open spec fn render(t: Tree, depth: nat) -> Seq<char>
    decreases t,
{
    let line = indent(depth) + hex_lower(t.digest()) + seq!['\n'];
    match t {
        Tree::Leaf { .. } => line,
        Tree::Branch { left, right, .. } => line + render(*left, depth + 1) + render(*right, depth + 1),
        Tree::Twin { left, right, .. } => line + render(*left, depth + 1) + render(*right, depth + 1),
    }
}

/// The views of a sequence of byte vectors.
pub open spec fn digests_of(v: Seq<Vec<u8>>) -> Seq<Seq<u8>> {
    v.map_values(|d: Vec<u8>| d@)
}

proof fn lemma_preorder_len(t: Tree)
    ensures
        t.preorder().len() == t.node_count(),
    decreases t,
{
    match t {
        Tree::Leaf { .. } => {},
        Tree::Branch { left, right, .. } => {
            lemma_preorder_len(*left);
            lemma_preorder_len(*right);
        },
        Tree::Twin { left, right, .. } => {
            lemma_preorder_len(*left);
            lemma_preorder_len(*right);
        },
    }
}

/// Appends the digests of a subtree in pre-order.
fn traverse_node(node: &Node, out: &mut Vec<Vec<u8>>)
    requires
        node.wf(),
        forall|i: int| 0 <= i < old(out)@.len() ==> (#[trigger] old(out)@[i])@.len() == 32,
    ensures
        digests_of(final(out)@) == digests_of(old(out)@) + node.model().preorder(),
        forall|i: int| 0 <= i < final(out)@.len() ==> (#[trigger] final(out)@[i])@.len() == 32,
    decreases node,
{
    let ghost start = digests_of(out@);
    out.push(copy_bytes(&node.hash));
    assert(digests_of(out@) =~= start + seq![node.hash@]);
    match &node.left {
        Some(l) => {
            traverse_node(l, out);
        },
        None => {},
    }
    match &node.right {
        Some(r) => {
            traverse_node(r, out);
        },
        None => {},
    }
    assert(digests_of(out@) =~= start + node.model().preorder());
}

/// Appends the text rendering of a subtree whose indentation is `pad`.
fn render_node(node: &Node, pad: &String, Ghost(depth): Ghost<nat>, out: &mut String)
    requires
        node.wf(),
        pad@ == indent(depth),
    ensures
        final(out)@ == old(out)@ + render(node.model(), depth),
    decreases node,
{
    let ghost start = out@;
    out.append(pad.as_str());
    let h = to_hex(node.hash.as_slice());
    out.append(h.as_str());
    out.append("\n");
    proof {
        reveal_strlit("\n");
    }
    assert(out@ =~= start + (indent(depth) + hex_lower(node.hash@) + seq!['\n']));
    let mut child_pad = pad.clone();
    child_pad.append("  ");
    proof {
        reveal_strlit("  ");
    }
    assert(child_pad@ =~= indent(depth + 1));
    match &node.left {
        Some(l) => {
            render_node(l, &child_pad, Ghost(depth + 1), out);
        },
        None => {},
    }
    match &node.right {
        Some(r) => {
            render_node(r, &child_pad, Ghost(depth + 1), out);
        },
        None => {},
    }
    assert(out@ =~= start + render(node.model(), depth));
}

impl MerkleTree {
    /// The digests of all nodes in pre-order, copies included: node, left subtree, right subtree.
    pub fn traverse(&self) -> (r: Vec<Vec<u8>>)
        requires
            self.wf(),
        ensures
            digests_of(r@) == match self.tree() {
                Some(t) => t.preorder(),
                None => seq![],
            },
            forall|i: int| 0 <= i < r@.len() ==> (#[trigger] r@[i])@.len() == 32,
    {
        let mut out: Vec<Vec<u8>> = Vec::new();
        match &self.root {
            Some(n) => {
                traverse_node(n, &mut out);
                assert(digests_of(out@) =~= n.model().preorder());
            },
            None => {},
        }
        out
    }

    /// The number of nodes, copies included.
    pub fn size(&self) -> (r: usize)
        requires
            self.wf(),
        ensures
            r == match self.tree() {
                Some(t) => t.node_count(),
                None => 0,
            },
    {
        let all = self.traverse();
        assert(digests_of(all@).len() == all@.len());
        proof {
            match self.tree() {
                Some(t) => lemma_preorder_len(t),
                None => {},
            }
        }
        all.len()
    }

    /// The tree as text: one line per node, copies included, in pre-order, its digest in
    /// lowercase hex, indented by two spaces per level of depth.
    pub fn print_tree(&self) -> (r: String)
        requires
            self.wf(),
        ensures
            r@ == match self.tree() {
                Some(t) => render(t, 0),
                None => seq![],
            },
    {
        let mut out = String::new();
        let pad = String::new();
        assert(pad@ =~= indent(0));
        match &self.root {
            Some(n) => {
                render_node(n, &pad, Ghost(0), &mut out);
                assert(out@ =~= render(n.model(), 0));
            },
            None => {},
        }
        out
    }
}

/// The digests of the UTF-8 bytes of text leaves.
pub open spec fn text_digests(leaves: Seq<String>) -> Seq<Seq<u8>> {
    leaves.map_values(|s: String| sha256_of(encode_utf8(s@)))
}

/// Builds the tree over text leaves, such as the handles under which block
/// payloads were stored.
pub fn build_tree(leaves_original: Vec<String>) -> (r: MerkleTree)
    ensures
        r.wf(),
        r@ == text_digests(leaves_original@),
        forall|i: int| 0 <= i < r@.len() ==> (#[trigger] r@[i]).len() == 32,
{
    let mut digests: Vec<Vec<u8>> = Vec::new();
    for i in 0..leaves_original.len()
        invariant
            digests@.len() == i,
            forall|k: int| 0 <= k < i ==> (#[trigger] digests@[k])@.len() == 32,
            forall|k: int| 0 <= k < i ==> (#[trigger] digests@[k])@ == sha256_of(encode_utf8(leaves_original@[k]@)),
    {
        digests.push(sha256(leaves_original[i].as_str().as_bytes()));
    }
    let r = MerkleTree::from_digests(digests);
    assert(r@ =~= text_digests(leaves_original@));
    r
}

/// The tamper vector of a candidate tree against the original tree.
pub fn image_verification(fake_merkle_tree: MerkleTree, original_merkle_tree: MerkleTree) -> (r: Result<Vec<u32>, IntegrityError>)
    requires
        fake_merkle_tree.wf(),
        original_merkle_tree.wf(),
    ensures
        r is Err <==> original_merkle_tree@.len() != fake_merkle_tree@.len(),
        r is Err ==> r == Err::<Vec<u32>, IntegrityError>(IntegrityError::LeafCountMismatch),
        r is Ok ==> r.unwrap()@ == tamper_vector(original_merkle_tree@, fake_merkle_tree@),
        r is Ok ==> r.unwrap()@.len() == original_merkle_tree@.len(),
{
    compare_merkle_trees(&original_merkle_tree, &fake_merkle_tree)
}

/// Anchors the Merkle root of text leaves in the ledger: appends an entry
/// whose root is the tree's root digest in lowercase hex and whose
/// transaction lists the leaves. No leaves is refused, and the ledger is
/// left as it was.
pub fn insert_root(leaves_original: Vec<String>, blockchain: &mut Blockchain) -> (r: Result<(), IntegrityError>)
    requires
        old(blockchain).wf(),
    ensures
        final(blockchain).wf(),
        r is Err <==> leaves_original@.len() == 0,
        r is Err ==> r == Err::<(), IntegrityError>(IntegrityError::EmptyLeaves) && final(blockchain)@ == old(blockchain)@,
        r is Ok ==> {
            &&& final(blockchain)@.len() == old(blockchain)@.len() + 1
            &&& final(blockchain)@.subrange(0, old(blockchain)@.len() as int) == old(blockchain)@
            &&& final(blockchain)@.last().header.prev_blockhash@ == header_hash(old(blockchain)@.last().header)
            &&& final(blockchain)@.last().header.merkle_root@
                == hex_lower(merkle(text_digests(leaves_original@)).unwrap().digest())
            &&& final(blockchain)@.last().transaction.tx == leaves_original
        },
{
    let merkle_tree = build_tree(clone_strings(&leaves_original));
    match merkle_tree.root_hex() {
        Some(root) => {
            blockchain.add_block(root, leaves_original);
            Ok(())
        },
        None => Err(IntegrityError::EmptyLeaves),
    }
}

/// The tamper vector of a candidate tree against the original: one flag
/// per leaf in leaf order, 0 for a match and 1 for a mismatch. The trees
/// must hold equally many leaves; `compare_merkle_trees` refuses them
/// otherwise.
pub fn ri_array(original_merkle: &MerkleTree, fake_merkle: &MerkleTree) -> (r: Vec<u32>)
    requires
        original_merkle.wf(),
        fake_merkle.wf(),
        original_merkle@.len() == fake_merkle@.len(),
    ensures
        r@ == tamper_vector(original_merkle@, fake_merkle@),
        r@.len() == original_merkle@.len(),
{
    proof {
        lemma_tamper_vector_len(original_merkle@, fake_merkle@);
    }
    let mut ri: Vec<u32> = Vec::new();
    match &original_merkle.root {
        Some(n1) => match &fake_merkle.root {
            Some(n2) => {
                compare_nodes_merkle(n1, n2, &mut ri);
                assert(ri@ =~= tamper_vector(original_merkle@, fake_merkle@));
            },
            None => {},
        },
        None => {},
    }
    ri
}

} // verus!
