//! Merkle trees over transaction hashes, and proofs that a hash is under a root.
use crate::bytes::append_slice;
use crate::bytes::same_bytes;
use crate::crypto::sha256d;
use crate::crypto::sha256d_of;
use crate::spv::error::SpvError;
use crate::spv::error::SpvFault;
use crate::text::hex_encode;
use crate::text::hex_text;
use vstd::prelude::*;
use vstd::string::*;

verus! {

/// The node above two nodes.
pub open spec fn parent(left: Seq<u8>, right: Seq<u8>) -> Seq<u8> {
    sha256d_of(left + right)
}

/// The hash of nothing: the root of a tree without leaves.
pub open spec fn zero_hash() -> Seq<u8> {
    Seq::new(32, |i: int| 0u8)
}

/// The nodes as byte sequences.
pub open spec fn nodes(v: Seq<[u8; 32]>) -> Seq<Seq<u8>> {
    v.map_values(|h: [u8; 32]| h@)
}

/// The level above a level. A last node without a neighbour is paired with itself.
pub open spec fn level_above(level: Seq<Seq<u8>>) -> Seq<Seq<u8>> {
    Seq::new(
        (level.len() + 1) / 2,
        |i: int|
            parent(
                level[2 * i],
                if 2 * i + 1 < level.len() {
                    level[2 * i + 1]
                } else {
                    level[2 * i]
                },
            ),
    )
}

/// The root over a level.
pub open spec fn root_over(level: Seq<Seq<u8>>) -> Seq<u8>
    decreases level.len(),
{
    if level.len() == 0 {
        zero_hash()
    } else if level.len() == 1 {
        level[0]
    } else {
        root_over(level_above(level))
    }
}

/// One step of a proof: a sibling and on which side it stands.
#[verifier::ext_equal]
pub struct Step {
    pub hash: Seq<u8>,
    pub is_left: bool,
}

/// The node above a node and its sibling.
pub open spec fn step_up(node: Seq<u8>, s: Step) -> Seq<u8> {
    if s.is_left {
        parent(s.hash, node)
    } else {
        parent(node, s.hash)
    }
}

/// Where the steps lead from a node.
pub open spec fn climb(node: Seq<u8>, steps: Seq<Step>) -> Seq<u8>
    decreases steps.len(),
{
    if steps.len() == 0 {
        node
    } else {
        climb(step_up(node, steps[0]), steps.skip(1))
    }
}

/// The sibling of the node at `index` of a level; a last node without a neighbour is its own.
pub open spec fn sibling(level: Seq<Seq<u8>>, index: int) -> Step {
    if index % 2 == 1 {
        Step { hash: level[index - 1], is_left: true }
    } else if index + 1 < level.len() {
        Step { hash: level[index + 1], is_left: false }
    } else {
        Step { hash: level[index], is_left: false }
    }
}

/// The steps from the node at `index` of a level up to the root.
pub open spec fn path_from(level: Seq<Seq<u8>>, index: int) -> Seq<Step>
    decreases level.len(),
{
    if level.len() <= 1 {
        Seq::empty()
    } else {
        seq![sibling(level, index)] + path_from(level_above(level), index / 2)
    }
}

/// The node above two nodes.
pub fn combine(left: &[u8; 32], right: &[u8; 32]) -> (r: [u8; 32])
    ensures
        r@ == parent(left@, right@),
{
    let mut buf: Vec<u8> = Vec::new();
    append_slice(&mut buf, left.as_slice());
    append_slice(&mut buf, right.as_slice());
    assert(buf@ =~= left@ + right@);
    sha256d(buf.as_slice())
}

/// Fills `next` with the level above `level`.
fn fill_above(level: &Vec<[u8; 32]>, next: &mut Vec<[u8; 32]>)
    ensures
        nodes(final(next)@) == level_above(nodes(level@)),
{
    next.clear();
    let ghost s = nodes(level@);
    let mut i: usize = 0;
    while i < level.len()
        invariant
            s == nodes(level@),
            i <= level@.len() + 1,
            i % 2 == 0,
            next@.len() == i / 2,
            next@.len() <= level_above(s).len(),
            i >= level@.len() ==> next@.len() == level_above(s).len(),
            forall|k: int| 0 <= k < next@.len() ==> #[trigger] nodes(next@)[k] == level_above(s)[k],
        decreases level@.len() + 1 - i,
    {
        let left: [u8; 32] = level[i];
        let right: [u8; 32] = if level.len() - i > 1 {
            level[i + 1]
        } else {
            level[i]
        };
        let ghost before = next@;
        next.push(combine(&left, &right));
        proof {
            let n = before.len() as int;
            assert(2 * n == i);
            assert(s[2 * n] == left@);
            assert(nodes(next@)[n] == level_above(s)[n]);
            assert forall|k: int| 0 <= k < next@.len() implies #[trigger] nodes(next@)[k]
                == level_above(s)[k] by {
                if k < n {
                    assert(nodes(next@)[k] == nodes(before)[k]);
                }
            }
        }
        if level.len() - i <= 2 {
            assert(nodes(next@) =~= level_above(s));
            return ;
        }
        i = i + 2;
    }
    assert(nodes(next@) =~= level_above(s));
}

/// Whether level `i` has more than one node and the next stands above it.
spec fn carries(v: Seq<Vec<[u8; 32]>>, i: int) -> bool {
    v[i]@.len() > 1 && nodes(v[i + 1]@) == level_above(nodes(v[i]@))
}

/// Whether each level stands above the one before it and the last has one node.
spec fn stacked(v: Seq<Vec<[u8; 32]>>) -> bool {
    &&& v.len() > 0
    &&& forall|i: int| 0 <= i < v.len() - 1 ==> #[trigger] carries(v, i)
    &&& v.last()@.len() == 1
}

proof fn lemma_stacked_root(v: Seq<Vec<[u8; 32]>>, i: int)
    requires
        stacked(v),
        0 <= i < v.len(),
    ensures
        root_over(nodes(v[i]@)) == v.last()@[0]@,
    decreases v.len() - i,
{
    if i == v.len() - 1 {
        assert(nodes(v[i]@)[0] == v[i]@[0]@);
    } else {
        lemma_stacked_root(v, i + 1);
        assert(carries(v, i));
        assert(nodes(v[i]@).len() == v[i]@.len());
    }
}

fn top(levels: &Vec<Vec<[u8; 32]>>) -> (r: [u8; 32])
    requires
        stacked(levels@),
    ensures
        r@ == root_over(nodes(levels@[0]@)),
{
    proof {
        lemma_stacked_root(levels@, 0);
    }
    let last: &Vec<[u8; 32]> = &levels[levels.len() - 1];
    last[0]
}

/// A complete tree of hashes.
#[derive(Debug, Clone)]
pub struct MerkleTree {
    levels: Vec<Vec<[u8; 32]>>,
}

/// A tree of hashes that keeps its buffers from one build to the next.
#[derive(Debug)]
pub struct MerkleScratch {
    levels: Vec<Vec<[u8; 32]>>,
}

/// One step of an inclusion proof.
#[derive(Debug, Clone, Copy, PartialEq, Eq)]
pub struct ProofNode {
    /// The sibling.
    pub hash: [u8; 32],
    /// Whether the sibling stands to the left.
    pub is_left: bool,
}

/// A proof that a transaction is in a block.
#[derive(Debug, Clone, PartialEq, Eq)]
pub struct MerkleProof {
    /// The hash of the transaction.
    pub txid: [u8; 32],
    /// The position of the transaction in the block.
    pub index: usize,
    /// The siblings on the way up.
    pub siblings: Vec<ProofNode>,
    /// The root that the proof is for.
    pub root: [u8; 32],
}

impl View for ProofNode {
    type V = Step;

    open spec fn view(&self) -> Step {
        Step { hash: self.hash@, is_left: self.is_left }
    }
}

/// The steps of a proof.
pub open spec fn steps(v: Seq<ProofNode>) -> Seq<Step> {
    v.map_values(|n: ProofNode| n@)
}

/// Whether `p` is the proof for the node at `index` of `leaves`.
pub open spec fn is_proof_of(p: MerkleProof, leaves: Seq<Seq<u8>>, index: int) -> bool {
    &&& p.txid@ == leaves[index]
    &&& p.index == index
    &&& steps(p.siblings@) == path_from(leaves, index)
    &&& p.root@ == root_over(leaves)
}

fn prove(levels: &Vec<Vec<[u8; 32]>>, index: usize) -> (r: Option<MerkleProof>)
    requires
        stacked(levels@),
    ensures
        index >= levels@[0]@.len() ==> r is None,
        index < levels@[0]@.len() ==> (r matches Some(p) && is_proof_of(
            p,
            nodes(levels@[0]@),
            index as int,
        )),
{
    let ghost leaves = nodes(levels@[0]@);
    let first: &Vec<[u8; 32]> = &levels[0];
    if index >= first.len() {
        return None;
    }
    let txid: [u8; 32] = first[index];
    let mut siblings: Vec<ProofNode> = Vec::new();
    let mut at: usize = index;
    let mut i: usize = 0;
    assert(steps(siblings@) + path_from(leaves, index as int) =~= path_from(leaves, index as int));
    while i < levels.len() - 1
        invariant
            stacked(levels@),
            i < levels@.len(),
            at < levels@[i as int]@.len(),
            steps(siblings@) + path_from(nodes(levels@[i as int]@), at as int) == path_from(
                leaves,
                index as int,
            ),
        decreases levels@.len() - i,
    {
        let level: &Vec<[u8; 32]> = &levels[i];
        let ghost s = nodes(level@);
        assert(carries(levels@, i as int));
        let is_left: bool = at % 2 == 1;
        let pick: usize = if is_left {
            at - 1
        } else if level.len() - at > 1 {
            at + 1
        } else {
            at
        };
        let ghost before = siblings@;
        siblings.push(ProofNode { hash: level[pick], is_left });
        proof {
            assert(siblings@.last()@ == sibling(s, at as int));
            assert(steps(siblings@) =~= steps(before).push(sibling(s, at as int)));
            let rest = path_from(level_above(s), at as int / 2);
            assert(path_from(s, at as int) == seq![sibling(s, at as int)] + rest);
            assert(steps(before) + (seq![sibling(s, at as int)] + rest) =~= steps(before).push(
                sibling(s, at as int),
            ) + rest);
            assert(nodes(levels@[i + 1]@) == level_above(s));
            assert(level_above(s).len() == levels@[i + 1]@.len());
        }
        at = at / 2;
        i = i + 1;
    }
    assert(path_from(nodes(levels@[i as int]@), at as int) =~= Seq::<Step>::empty());
    assert(steps(siblings@) =~= path_from(leaves, index as int));
    Some(MerkleProof { txid, index, siblings, root: top(levels) })
}

/// Replaces the levels by those over `leaves`, in the buffers that are there.
fn rebuild(levels: &mut Vec<Vec<[u8; 32]>>, leaves: &[[u8; 32]])
    requires
        leaves@.len() > 0,
    ensures
        stacked(final(levels)@),
        final(levels)@[0]@ == leaves@,
{
    if levels.len() == 0 {
        levels.push(Vec::new());
    }
    levels.set(0, vstd::slice::slice_to_vec(leaves));
    let mut at: usize = 0;
    while levels[at].len() != 1
        invariant
            at < levels.len(),
            levels@[0]@ == leaves@,
            levels@[at as int]@.len() > 0,
            forall|i: int| 0 <= i < at ==> #[trigger] carries(levels@, i),
        decreases levels@[at as int]@.len(),
    {
        let ghost before = levels@;
        if levels.len() == at + 1 {
            levels.push(Vec::new());
        }
        let mut next: Vec<[u8; 32]> = Vec::new();
        std::mem::swap(&mut next, &mut levels[at + 1]);
        fill_above(&levels[at], &mut next);
        levels.set(at + 1, next);
        proof {
            let s = nodes(before[at as int]@);
            assert(level_above(s).len() == nodes(levels@[at + 1]@).len());
            assert forall|i: int| 0 <= i < at + 1 implies #[trigger] carries(levels@, i) by {
                assert(levels@[i] == before[i]);
                if i < at {
                    assert(carries(before, i));
                    assert(levels@[i + 1] == before[i + 1]);
                }
            }
        }
        at = at + 1;
    }
    let ghost before = levels@;
    levels.truncate(at + 1);
    assert forall|i: int| 0 <= i < at implies #[trigger] carries(levels@, i) by {
        assert(carries(before, i));
    }
}

/// The leaves of a tree with these levels; none where there is no level.
spec fn leaves_of(levels: Seq<Vec<[u8; 32]>>) -> Seq<Seq<u8>> {
    if levels.len() == 0 {
        Seq::empty()
    } else {
        nodes(levels[0]@)
    }
}

/// Whether there is no level, or every level stands above the one before it, up to the root.
spec fn is_tree(levels: Seq<Vec<[u8; 32]>>) -> bool {
    levels.len() == 0 || stacked(levels)
}

fn root_of(levels: &Vec<Vec<[u8; 32]>>) -> (r: [u8; 32])
    requires
        is_tree(levels@),
    ensures
        r@ == root_over(leaves_of(levels@)),
{
    if levels.len() == 0 {
        let zero: [u8; 32] = [0u8; 32];
        assert(zero@ =~= zero_hash());
        return zero;
    }
    top(levels)
}

fn proof_in(levels: &Vec<Vec<[u8; 32]>>, index: usize) -> (r: Option<MerkleProof>)
    requires
        is_tree(levels@),
    ensures
        index >= leaves_of(levels@).len() ==> r is None,
        index < leaves_of(levels@).len() ==> (r matches Some(p) && is_proof_of(
            p,
            leaves_of(levels@),
            index as int,
        )),
{
    if levels.len() == 0 {
        return None;
    }
    prove(levels, index)
}

impl MerkleTree {
    /// The leaves.
    pub closed spec fn leaves(&self) -> Seq<Seq<u8>> {
        leaves_of(self.levels@)
    }

    /// Whether there is no leaf, or every level stands above the one before it, up to the root.
    pub closed spec fn wf(&self) -> bool {
        is_tree(self.levels@)
    }

    /// Builds the tree over `txids`.
    pub fn build(txids: &[[u8; 32]]) -> (tree: Self)
        ensures
            tree.wf(),
            tree.leaves() == nodes(txids@),
    {
        let mut levels: Vec<Vec<[u8; 32]>> = Vec::new();
        if txids.len() == 0 {
            assert(nodes(txids@) =~= Seq::<Seq<u8>>::empty());
            return MerkleTree { levels };
        }
        rebuild(&mut levels, txids);
        MerkleTree { levels }
    }

    /// The root of the tree; the zero hash where there is no leaf.
    pub fn root(&self) -> (r: [u8; 32])
        requires
            self.wf(),
        ensures
            r@ == root_over(self.leaves()),
    {
        root_of(&self.levels)
    }

    /// The proof for the leaf at `index`; nothing where there is no such leaf.
    pub fn inclusion_proof(&self, index: usize) -> (r: Option<MerkleProof>)
        requires
            self.wf(),
        ensures
            index >= self.leaves().len() ==> r is None,
            index < self.leaves().len() ==> (r matches Some(p) && is_proof_of(
                p,
                self.leaves(),
                index as int,
            )),
    {
        proof_in(&self.levels, index)
    }
}

impl MerkleScratch {
    /// The leaves of the last build; none before the first.
    pub closed spec fn leaves(&self) -> Seq<Seq<u8>> {
        leaves_of(self.levels@)
    }

    /// Whether there is no leaf, or every level stands above the one before it, up to the root.
    pub closed spec fn wf(&self) -> bool {
        is_tree(self.levels@)
    }

    /// A builder without leaves.
    pub fn new() -> (s: Self)
        ensures
            s.wf(),
            s.leaves() == Seq::<Seq<u8>>::empty(),
    {
        MerkleScratch { levels: Vec::new() }
    }

    /// Builds the tree over `leaves` and returns its root.
    pub fn build(&mut self, leaves: &[[u8; 32]]) -> (r: [u8; 32])
        ensures
            final(self).wf(),
            final(self).leaves() == nodes(leaves@),
            r@ == root_over(nodes(leaves@)),
    {
        if leaves.len() == 0 {
            self.levels.clear();
            assert(nodes(leaves@) =~= Seq::<Seq<u8>>::empty());
        } else {
            rebuild(&mut self.levels, leaves);
        }
        root_of(&self.levels)
    }

    /// The root of the last build; the zero hash where there is no leaf.
    pub fn root(&self) -> (r: [u8; 32])
        requires
            self.wf(),
        ensures
            r@ == root_over(self.leaves()),
    {
        root_of(&self.levels)
    }

    /// The proof for the leaf at `index`; nothing where there is no such leaf.
    pub fn inclusion_proof(&self, index: usize) -> (r: Option<MerkleProof>)
        requires
            self.wf(),
        ensures
            index >= self.leaves().len() ==> r is None,
            index < self.leaves().len() ==> (r matches Some(p) && is_proof_of(
                p,
                self.leaves(),
                index as int,
            )),
    {
        proof_in(&self.levels, index)
    }
}

impl Default for MerkleScratch {
    fn default() -> (s: Self)
        ensures
            s.wf(),
            s.leaves() == Seq::<Seq<u8>>::empty(),
    {
        MerkleScratch::new()
    }
}

/// Follows the siblings up from a node.
pub(crate) fn follow(node: &[u8; 32], siblings: &Vec<ProofNode>) -> (r: [u8; 32])
    ensures
        r@ == climb(node@, steps(siblings@)),
{
    let mut current: [u8; 32] = *node;
    let mut i: usize = 0;
    assert(steps(siblings@).skip(0) =~= steps(siblings@));
    while i < siblings.len()
        invariant
            i <= siblings@.len(),
            climb(current@, steps(siblings@).skip(i as int)) == climb(node@, steps(siblings@)),
        decreases siblings@.len() - i,
    {
        let ghost rest = steps(siblings@).skip(i as int);
        current = if siblings[i].is_left {
            combine(&siblings[i].hash, &current)
        } else {
            combine(&current, &siblings[i].hash)
        };
        assert(rest[0] == siblings@[i as int]@);
        assert(rest.skip(1) =~= steps(siblings@).skip(i + 1));
        i = i + 1;
    }
    current
}

/// The text of a proof that leads elsewhere.
pub open spec fn wrong_root_text(computed: Seq<u8>, expected: Seq<u8>) -> Seq<char> {
    "computed root "@ + hex_text(computed) + " != expected "@ + hex_text(expected)
}

impl MerkleProof {
    /// Accepts the proof exactly when its steps lead from its transaction to `expected_root`.
    pub fn verify(&self, expected_root: &[u8; 32]) -> (r: Result<(), SpvError>)
        ensures
            climb(self.txid@, steps(self.siblings@)) == expected_root@ ==> r is Ok,
            climb(self.txid@, steps(self.siblings@)) != expected_root@ ==> (r matches Err(e) && e@
                == SpvFault::InvalidMerkleProof(
                wrong_root_text(climb(self.txid@, steps(self.siblings@)), expected_root@),
            )),
    {
        let current: [u8; 32] = follow(&self.txid, &self.siblings);
        if same_bytes(current.as_slice(), expected_root.as_slice()) {
            Ok(())
        } else {
            let mut m: String = "computed root ".to_owned();
            m.append(hex_encode(current.as_slice()).as_str());
            m.append(" != expected ");
            m.append(hex_encode(expected_root.as_slice()).as_str());
            Err(SpvError::InvalidMerkleProof(m))
        }
    }

    /// Checks the proof against the root that it holds.
    pub fn verify_self(&self) -> (r: Result<(), SpvError>)
        ensures
            climb(self.txid@, steps(self.siblings@)) == self.root@ ==> r is Ok,
            climb(self.txid@, steps(self.siblings@)) != self.root@ ==> (r matches Err(e) && e@
                == SpvFault::InvalidMerkleProof(
                wrong_root_text(climb(self.txid@, steps(self.siblings@)), self.root@),
            )),
    {
        self.verify(&self.root)
    }
}

proof fn lemma_path_leads_to_root(level: Seq<Seq<u8>>, index: int)
    requires
        0 <= index < level.len(),
    ensures
        climb(level[index], path_from(level, index)) == root_over(level),
    decreases level.len(),
{
    if level.len() > 1 {
        let above = level_above(level);
        let up = index / 2;
        let s = sibling(level, index);
        let path = path_from(level, index);
        assert(path[0] == s);
        assert(path.skip(1) =~= path_from(above, up));
        assert(step_up(level[index], s) == above[up]) by {
            if index % 2 == 1 {
                assert(2 * up == index - 1);
            } else {
                assert(2 * up == index);
            }
        }
        lemma_path_leads_to_root(above, up);
    }
}

/// The proof that a tree gives for a leaf leads from the leaf to the root of the tree.
pub proof fn law_proof_verifies(p: MerkleProof, leaves: Seq<Seq<u8>>, index: int)
    requires
        0 <= index < leaves.len(),
        is_proof_of(p, leaves, index),
    ensures
        climb(p.txid@, steps(p.siblings@)) == root_over(leaves),
        climb(p.txid@, steps(p.siblings@)) == p.root@,
{
    lemma_path_leads_to_root(leaves, index);
}

/// A single leaf is its own root, and repeating the last of an odd number of leaves, which is
/// more than one, leaves the root as it is.
pub proof fn law_odd_leaf_is_repeated(leaves: Seq<Seq<u8>>)
    requires
        leaves.len() > 1,
        leaves.len() % 2 == 1,
    ensures
        root_over(leaves) == root_over(leaves.push(leaves.last())),
        root_over(seq![leaves[0]]) == leaves[0],
{
    let more = leaves.push(leaves.last());
    assert(level_above(leaves) =~= level_above(more)) by {
        assert forall|i: int| 0 <= i < level_above(leaves).len() implies level_above(leaves)[i]
            == level_above(more)[i] by {
            assert(more[2 * i] == leaves[2 * i]);
        }
    }
}

} // verus!
