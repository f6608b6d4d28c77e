//! Parent hashes: computing them along a committer's direct path and checking
//! them across the whole tree.

use vstd::prelude::*;

use crate::codec::{opaque_items_spec, opaque_list_encodable, opaque_list_spec, opaque_spec, push_opaque, push_bytes, push_varint, OPAQUE_LIMIT};
use crate::crypto::{ct_eq, digest_output, hash_digest};
use crate::kdf::{kdf_of, CipherSuite, KdfId};
use crate::node::{keys_view, leaf_count_of, KeyPackage, LeafIndex, NodeModel, NodeVec, NodeVecError, Node, Parent, ocr_spec};
use crate::codec::{copy_bytes, CodecError};
use crate::tree_math::{direct_path, direct_path_spec, left, left_of, left_spec, level, lemma_children, pairs_view, path_from, right, right_of, right_spec, TreeMathError};

verus! {

/// A hash output committing a parent to its subtree; empty means no hash yet.
#[derive(Clone, Debug, PartialEq, Eq)]
pub struct ParentHash(Vec<u8>);

impl View for ParentHash {
    type V = Seq<u8>;

    closed spec fn view(&self) -> Seq<u8> {
        self.0@
    }
}

/// Failures while computing a parent hash.
#[derive(Clone, Copy, Debug, PartialEq, Eq, Structural)]
pub enum ParentHashError {
    SerializationError(CodecError),
    NodeVecError(NodeVecError),
    TreeMathError(TreeMathError),
}

/// Why a parent failed validation.
#[derive(Clone, Copy, Debug, PartialEq, Eq, Structural)]
pub enum InvalidReason {
    /// Descending the blank right subtree ended on a blank leaf.
    BlankLeaf,
    /// Neither child carries the expected hash.
    NoMatchFound,
}

/// Failures of the tree operations.
#[derive(Clone, Copy, Debug, PartialEq, Eq, Structural)]
pub enum RatchetTreeError {
    ParentHashError(ParentHashError),
    NodeVecError(NodeVecError),
    TreeMathError(TreeMathError),
    /// The update path's key package has no parent-hash extension.
    ParentHashNotFound,
    /// The update path's parent hash differs from the computed one.
    ParentHashMismatch,
    InvalidParentHash(InvalidReason),
}

/// The encoded `ParentHashInput`.
pub open spec fn hash_input_spec(public_key: Seq<u8>, parent_hash: Seq<u8>, ocr: Seq<Seq<u8>>) -> Seq<u8> {
    opaque_spec(public_key) + opaque_spec(parent_hash) + opaque_list_spec(ocr)
}

/// When every part of a `ParentHashInput` fits its size prefix.
pub open spec fn hash_input_encodable(public_key: Seq<u8>, parent_hash: Seq<u8>, ocr: Seq<Seq<u8>>) -> bool {
    &&& public_key.len() < OPAQUE_LIMIT
    &&& parent_hash.len() < OPAQUE_LIMIT
    &&& opaque_list_encodable(ocr)
}

/// The parent hash of a parent with `public_key` whose own parent hash is
/// `parent_hash`, against the original child resolution `ocr`.
pub open spec fn parent_hash_value(cs: CipherSuite, public_key: Seq<u8>, parent_hash: Seq<u8>, ocr: Seq<Seq<u8>>) -> Seq<u8> {
    digest_output(kdf_of(cs), hash_input_spec(public_key, parent_hash, ocr))
}

fn encode_opaque_list(items: &Vec<Vec<u8>>, out: &mut Vec<u8>) -> (r: Result<(), CodecError>)
    ensures
        r is Ok <==> opaque_list_encodable(keys_view(items@)),
        r is Ok ==> final(out)@ == old(out)@ + opaque_list_spec(keys_view(items@)),
{
    let ghost kv = keys_view(items@);
    let mut body: Vec<u8> = Vec::new();
    let mut i: usize = 0;
    while i < items.len()
        invariant
            i <= items@.len(),
            kv == keys_view(items@),
            forall|j: int| 0 <= j < i ==> #[trigger] kv[j].len() < OPAQUE_LIMIT,
            body@ == opaque_items_spec(kv.take(i as int)),
        decreases items@.len() - i,
    {
        if items[i].len() >= OPAQUE_LIMIT {
            assert(kv[i as int].len() >= OPAQUE_LIMIT);
            return Err(CodecError::TooLong);
        }
        push_opaque(&mut body, items[i].as_slice());
        i = i + 1;
        assert(kv.take(i as int).drop_last() =~= kv.take(i - 1));
    }
    assert(kv.take(i as int) =~= kv);
    if body.len() >= OPAQUE_LIMIT {
        return Err(CodecError::TooLong);
    }
    push_varint(out, body.len());
    push_bytes(out, body.as_slice());
    assert(final(out)@ =~= old(out)@ + opaque_list_spec(kv));
    Ok(())
}

impl ParentHash {
    pub fn from_bytes(v: Vec<u8>) -> (r: ParentHash)
        ensures
            r@ == v@,
    {
        ParentHash(v)
    }

    pub fn empty() -> (r: ParentHash)
        ensures
            r@ == Seq::<u8>::empty(),
    {
        ParentHash(Vec::new())
    }

    pub fn copy(&self) -> (r: ParentHash)
        ensures
            r@ == self@,
    {
        ParentHash(copy_bytes(self.0.as_slice()))
    }

    pub fn as_slice(&self) -> (r: &[u8])
        ensures
            r@ == self@,
    {
        self.0.as_slice()
    }

    /// Whether the two hashes are equal, compared in constant time.
    pub fn matches(&self, hash: ParentHash) -> (r: bool)
        ensures
            r == (self@ == hash@),
    {
        ct_eq(self.0.as_slice(), hash.0.as_slice())
    }

    /// The hash of the encoded `ParentHashInput` under the suite's hash function.
    pub fn new(
        cipher_suite: CipherSuite,
        public_key: &[u8],
        parent_hash: &ParentHash,
        original_child_resolution: Vec<Vec<u8>>,
    ) -> (r: Result<Self, ParentHashError>)
        ensures
            r is Ok <==> hash_input_encodable(public_key@, parent_hash@, keys_view(original_child_resolution@)),
            r matches Ok(h) ==> h@ == parent_hash_value(cipher_suite, public_key@, parent_hash@, keys_view(original_child_resolution@)),
            r matches Ok(h) ==> h@.len() == kdf_of(cipher_suite).output_len(),
    {
        if public_key.len() >= OPAQUE_LIMIT || parent_hash.0.len() >= OPAQUE_LIMIT {
            return Err(ParentHashError::SerializationError(CodecError::TooLong));
        }
        let mut input: Vec<u8> = Vec::new();
        push_opaque(&mut input, public_key);
        push_opaque(&mut input, parent_hash.0.as_slice());
        match encode_opaque_list(&original_child_resolution, &mut input) {
            Ok(()) => {},
            Err(e) => {
                return Err(ParentHashError::SerializationError(e));
            },
        }
        assert(input@ =~= hash_input_spec(public_key@, parent_hash@, keys_view(original_child_resolution@)));
        Ok(ParentHash(hash_digest(cipher_suite.kdf_id(), input.as_slice())))
    }
}

/// The parent hash of the parent at `i` with parent hash `pph`, against the
/// original child resolution of its child `c`; `None` when `i` holds no
/// parent or the computation fails.
pub open spec fn node_parent_hash_spec(
    cs: CipherSuite,
    nodes: Seq<Option<NodeModel>>,
    pph: Seq<u8>,
    i: nat,
    c: nat,
) -> Option<Seq<u8>> {
    if i < nodes.len() {
        match nodes[i as int] {
            Some(NodeModel::Parent { public_key, unmerged, .. }) => match ocr_spec(nodes, unmerged, c) {
                Some(ocr) => if hash_input_encodable(public_key, pph, ocr) {
                    Some(parent_hash_value(cs, public_key, pph, ocr))
                } else {
                    None
                },
                None => None,
            },
            _ => None,
        }
    } else {
        None
    }
}

/// Walks `pairs` (parent, copath child) from the root down, threading the hash:
/// the leaf's hash and the hash recorded for each parent.
pub open spec fn chain_spec(
    cs: CipherSuite,
    nodes: Seq<Option<NodeModel>>,
    pairs: Seq<(nat, nat)>,
    acc: Seq<u8>,
) -> Option<(Seq<u8>, Seq<(nat, Seq<u8>)>)>
    decreases pairs.len(),
{
    if pairs.len() == 0 {
        Some((acc, Seq::empty()))
    } else {
        match node_parent_hash_spec(cs, nodes, acc, pairs[0].0, pairs[0].1) {
            Some(h) => match chain_spec(cs, nodes, pairs.drop_first(), h) {
                Some((lh, ch)) => Some((lh, seq![(pairs[0].0, acc)] + ch)),
                None => None,
            },
            None => None,
        }
    }
}

/// The leaf's parent hash and the changes to parent nodes for a commit by `leaf`.
pub open spec fn leaf_chain_spec(cs: CipherSuite, nodes: Seq<Option<NodeModel>>, leaf: nat) -> Option<
    (Seq<u8>, Seq<(nat, Seq<u8>)>),
> {
    if leaf_count_of(nodes.len()) <= 1 {
        Some((Seq::empty(), Seq::empty()))
    } else {
        match direct_path_spec(leaf, leaf_count_of(nodes.len())) {
            Some(p) => chain_spec(cs, nodes, p, Seq::empty()),
            None => None,
        }
    }
}

/// Sets the parent hash of the parent at `i`; other slots are unchanged.
pub open spec fn set_parent_hash(nodes: Seq<Option<NodeModel>>, i: nat, h: Seq<u8>) -> Seq<Option<NodeModel>> {
    if i < nodes.len() {
        match nodes[i as int] {
            Some(NodeModel::Parent { public_key, unmerged, .. }) => nodes.update(
                i as int,
                Some(NodeModel::Parent { public_key, parent_hash: h, unmerged }),
            ),
            _ => nodes,
        }
    } else {
        nodes
    }
}

pub open spec fn apply_changes(nodes: Seq<Option<NodeModel>>, ch: Seq<(nat, Seq<u8>)>) -> Seq<Option<NodeModel>>
    decreases ch.len(),
{
    if ch.len() == 0 {
        nodes
    } else {
        set_parent_hash(apply_changes(nodes, ch.drop_last()), ch.last().0, ch.last().1)
    }
}

pub open spec fn changes_view(v: Seq<(usize, ParentHash)>) -> Seq<(nat, Seq<u8>)> {
    v.map_values(|c: (usize, ParentHash)| (c.0 as nat, c.1@))
}

/// From `r`, step to left children while on a blank parent.
pub open spec fn descend_blank(nodes: Seq<Option<NodeModel>>, r: nat) -> Option<nat>
    decreases level(r),
    via descend_blank_decreases
{
    if r >= nodes.len() {
        None
    } else if nodes[r as int] is None && level(r) > 0 {
        match left_of(r) {
            Some(l) => descend_blank(nodes, l),
            None => None,
        }
    } else {
        Some(r)
    }
}

#[via_fn]
proof fn descend_blank_decreases(nodes: Seq<Option<NodeModel>>, r: nat) {
    if r < nodes.len() && nodes[r as int] is None && level(r) > 0 {
        lemma_children(r);
    }
}

/// Whether slot `x` holds a node whose parent hash is `h`.
pub open spec fn carries(nodes: Seq<Option<NodeModel>>, x: nat, h: Seq<u8>) -> bool {
    x < nodes.len() && nodes[x as int] is Some && nodes[x as int]->Some_0.parent_hash() == Some(h)
}

/// The check of the parent at `i` whose own parent hash is `ph`: `Some(Ok)`
/// when one child carries the hash of `i` against the other child, `Some(Err)`
/// with the reason when none does, `None` when a computation fails.
#[verifier::opaque]
pub open spec fn validate_spec(cs: CipherSuite, nodes: Seq<Option<NodeModel>>, i: nat, ph: Seq<u8>) -> Option<Result<(), InvalidReason>> {
    match (right_of(i, leaf_count_of(nodes.len())), left_of(i)) {
        (Some(r), Some(l)) => match node_parent_hash_spec(cs, nodes, ph, i, r) {
            None => None,
            Some(phr) => if l >= nodes.len() {
                None
            } else if carries(nodes, l, phr) {
                Some(Ok(()))
            } else {
                match descend_blank(nodes, r) {
                    None => None,
                    Some(r2) => if level(r2) == 0 && nodes[r2 as int] is None {
                        Some(Err(InvalidReason::BlankLeaf))
                    } else {
                        match node_parent_hash_spec(cs, nodes, ph, i, l) {
                            None => None,
                            Some(phl) => if carries(nodes, r2, phl) {
                                Some(Ok(()))
                            } else {
                                Some(Err(InvalidReason::NoMatchFound))
                            },
                        }
                    },
                }
            },
        },
        _ => None,
    }
}

/// The outcome of checking slot `i`: nothing to check unless it holds a parent.
pub open spec fn slot_valid(cs: CipherSuite, nodes: Seq<Option<NodeModel>>, i: nat) -> bool {
    match nodes[i as int] {
        Some(NodeModel::Parent { parent_hash, .. }) => validate_spec(cs, nodes, i, parent_hash) matches Some(Ok(_)),
        _ => true,
    }
}

/// Slot `i` holds a parent whose check fails with `e`: the invalid-hash error
/// with its reason, or another error when a computation fails.
pub open spec fn slot_error(cs: CipherSuite, nodes: Seq<Option<NodeModel>>, i: nat, e: RatchetTreeError) -> bool {
    match nodes[i as int] {
        Some(NodeModel::Parent { parent_hash, .. }) => match validate_spec(cs, nodes, i, parent_hash) {
            Some(Err(reason)) => e == RatchetTreeError::InvalidParentHash(reason),
            None => !(e matches RatchetTreeError::InvalidParentHash(_)),
            Some(Ok(_)) => false,
        },
        _ => false,
    }
}

/// The sender's path data: its new key package, and the path's public keys.
pub struct UpdatePath {
    pub leaf_key_package: KeyPackage,
    pub nodes: Vec<Vec<u8>>,
}

/// A ratchet tree under a cipher suite.
pub struct RatchetTree {
    pub cipher_suite: CipherSuite,
    pub nodes: NodeVec,
}

impl RatchetTree {
    pub fn leaf_count(&self) -> (r: usize)
        ensures
            r == leaf_count_of(self.nodes@.len()),
    {
        self.nodes.leaf_count()
    }

    /// The parent hash of the parent at `node_index`, against its child
    /// `co_path_child_index`.
    fn parent_hash(
        &self,
        parent_parent_hash: &ParentHash,
        node_index: usize,
        co_path_child_index: usize,
    ) -> (r: Result<ParentHash, RatchetTreeError>)
        requires
            self.nodes@.len() < usize::MAX,
        ensures
            r is Ok <==> node_parent_hash_spec(self.cipher_suite, self.nodes@, parent_parent_hash@, node_index as nat, co_path_child_index as nat) is Some,
            r matches Ok(h) ==> node_parent_hash_spec(self.cipher_suite, self.nodes@, parent_parent_hash@, node_index as nat, co_path_child_index as nat) == Some(h@),
            r matches Err(e) ==> !(e matches RatchetTreeError::InvalidParentHash(_)),
            r matches Ok(h) ==> h@.len() == kdf_of(self.cipher_suite).output_len(),
    {
        let node = match self.nodes.borrow_as_parent(node_index) {
            Ok(p) => p,
            Err(e) => {
                return Err(RatchetTreeError::NodeVecError(e));
            },
        };
        let ocr = match self.nodes.original_child_resolution(node, co_path_child_index) {
            Ok(o) => o,
            Err(e) => {
                return Err(RatchetTreeError::NodeVecError(e));
            },
        };
        match ParentHash::new(self.cipher_suite, node.public_key.as_slice(), parent_parent_hash, ocr) {
            Ok(h) => Ok(h),
            Err(e) => Err(RatchetTreeError::ParentHashError(e)),
        }
    }

    /// The parent hash the committing leaf `index` must carry, with the hash to
    /// record at each parent of its direct path.
    fn parent_hash_for_leaf(&self, index: LeafIndex) -> (r: Result<
        (ParentHash, Vec<(usize, ParentHash)>),
        RatchetTreeError,
    >)
        requires
            self.nodes@.len() < usize::MAX,
        ensures
            r is Ok <==> leaf_chain_spec(self.cipher_suite, self.nodes@, index.0 as nat) is Some,
            r matches Ok((h, ch)) ==> leaf_chain_spec(self.cipher_suite, self.nodes@, index.0 as nat) == Some((h@, changes_view(ch@))),
            r matches Ok((h, ch)) ==> (h@.len() == 0 <==> leaf_count_of(self.nodes@.len()) <= 1),
            r matches Ok((h, ch)) ==> leaf_count_of(self.nodes@.len()) > 1 ==> h@.len() == kdf_of(self.cipher_suite).output_len(),
    {
        let mut changes: Vec<(usize, ParentHash)> = Vec::new();
        if self.leaf_count() <= 1 {
            assert(changes_view(changes@) =~= Seq::empty());
            return Ok((ParentHash::empty(), changes));
        }
        let n = self.leaf_count();
        let pairs = match direct_path(index.0, n) {
            Ok(p) => p,
            Err(e) => {
                return Err(RatchetTreeError::TreeMathError(e));
            },
        };
        let ghost pv = pairs_view(pairs@);
        proof {
            crate::tree_math::lemma_direct_path_nonempty(index.0 as nat, n as nat);
        }
        assert(pv.len() == pairs@.len());
        let mut acc = ParentHash::empty();
        let mut k: usize = 0;
        assert(pv.skip(0) =~= pv);
        assert(changes_view(changes@) =~= Seq::empty());
        proof {
            match chain_spec(self.cipher_suite, self.nodes@, pv, acc@) {
                Some((lh, ch)) => {
                    assert(changes_view(changes@) + ch =~= ch);
                },
                None => {},
            }
        }
        while k < pairs.len()
            invariant
                k <= pairs@.len(),
                pv == pairs_view(pairs@),
                self.nodes@.len() < usize::MAX,
                k == 0 ==> acc@.len() == 0,
                k > 0 ==> acc@.len() == kdf_of(self.cipher_suite).output_len(),
                leaf_chain_spec(self.cipher_suite, self.nodes@, index.0 as nat) == match chain_spec(self.cipher_suite, self.nodes@, pv.skip(k as int), acc@) {
                    Some((lh, ch)) => Some((lh, changes_view(changes@) + ch)),
                    None => None::<(Seq<u8>, Seq<(nat, Seq<u8>)>)>,
                },
            decreases pairs@.len() - k,
        {
            let (node_idx, sibling_idx) = pairs[k];
            let ghost rest = pv.skip(k as int);
            assert(rest[0] == (node_idx as nat, sibling_idx as nat));
            assert(rest.drop_first() =~= pv.skip(k + 1));
            let next = self.parent_hash(&acc, node_idx, sibling_idx)?;
            let ghost before = changes@;
            changes.push((node_idx, acc));
            assert(changes_view(changes@) =~= changes_view(before).push((node_idx as nat, acc@)));
            proof {
                match chain_spec(self.cipher_suite, self.nodes@, pv.skip(k + 1), next@) {
                    Some((lh, ch)) => {
                        assert(changes_view(changes@) + ch =~= changes_view(before) + (seq![(node_idx as nat, acc@)] + ch));
                    },
                    None => {},
                }
            }
            acc = next;
            k = k + 1;
        }
        assert(pv.skip(k as int) =~= Seq::<(nat, nat)>::empty());
        assert(changes_view(changes@) + Seq::<(nat, Seq<u8>)>::empty() =~= changes_view(changes@));
        Ok((acc, changes))
    }

    /// Writes each recorded hash into the parent it belongs to.
    fn apply_parent_hash_changes(&mut self, changes: &Vec<(usize, ParentHash)>)
        ensures
            final(self).nodes@ == apply_changes(old(self).nodes@, changes_view(changes@)),
            final(self).cipher_suite == old(self).cipher_suite,
    {
        let ghost start = self.nodes@;
        let ghost cv = changes_view(changes@);
        let mut k: usize = 0;
        while k < changes.len()
            invariant
                k <= changes@.len(),
                cv == changes_view(changes@),
                self.cipher_suite == old(self).cipher_suite,
                start == old(self).nodes@,
                self.nodes@ == apply_changes(start, cv.take(k as int)),
            decreases changes@.len() - k,
        {
            let idx = changes[k].0;
            let h = changes[k].1.copy();
            let ghost prev = self.nodes@;
            let ghost prev_vec = self.nodes.0@;
            if idx < self.nodes.0.len() {
                let slot = self.nodes.0.remove(idx);
                let new_slot = match slot {
                    Some(Node::Parent(p)) => Some(
                        Node::Parent(Parent { public_key: p.public_key, parent_hash: h, unmerged_leaves: p.unmerged_leaves }),
                    ),
                    other => other,
                };
                self.nodes.0.insert(idx, new_slot);
                assert(self.nodes.0@ =~= prev_vec.update(idx as int, new_slot));
                assert(self.nodes@ =~= set_parent_hash(prev, idx as nat, h@));
            }
            assert(cv.take(k + 1).drop_last() =~= cv.take(k as int));
            k = k + 1;
        }
        assert(cv.take(k as int) =~= cv);
    }

    /// Recomputes the parent hashes along the direct path of leaf `index`,
    /// stores them in its parents, and returns the hash the leaf must carry.
    /// With an update path, its key package must carry that same hash.
    pub fn update_parent_hashes(&mut self, index: LeafIndex, update_path: Option<&UpdatePath>) -> (r:
        Result<ParentHash, RatchetTreeError>)
        requires
            old(self).nodes@.len() < usize::MAX,
        ensures
            final(self).cipher_suite == old(self).cipher_suite,
            r matches Ok(v) ==> (v@.len() == 0 <==> leaf_count_of(old(self).nodes@.len()) <= 1),
            r matches Ok(v) ==> leaf_count_of(old(self).nodes@.len()) > 1 ==> v@.len() == kdf_of(
                old(self).cipher_suite,
            ).output_len(),
            match leaf_chain_spec(old(self).cipher_suite, old(self).nodes@, index.0 as nat) {
                None => r is Err && final(self).nodes@ == old(self).nodes@,
                Some((h, ch)) => {
                    &&& final(self).nodes@ == apply_changes(old(self).nodes@, ch)
                    &&& match update_path {
                        None => r matches Ok(v) && v@ == h,
                        Some(up) => match up.leaf_key_package.parent_hash {
                            None => r == Err::<ParentHash, _>(RatchetTreeError::ParentHashNotFound),
                            Some(received) => if received@ == h {
                                r matches Ok(v) && v@ == h
                            } else {
                                r == Err::<ParentHash, _>(RatchetTreeError::ParentHashMismatch)
                            },
                        },
                    }
                },
            },
    {
        let (leaf_hash, changes) = self.parent_hash_for_leaf(index)?;
        self.apply_parent_hash_changes(&changes);
        match update_path {
            Some(up) => match &up.leaf_key_package.parent_hash {
                None => Err(RatchetTreeError::ParentHashNotFound),
                Some(received) => {
                    if leaf_hash.matches(received.copy()) {
                        Ok(leaf_hash)
                    } else {
                        Err(RatchetTreeError::ParentHashMismatch)
                    }
                },
            },
            None => Ok(leaf_hash),
        }
    }

    /// Whether slot `x` holds a node whose parent hash is `h`.
    fn node_carries(&self, x: usize, h: &ParentHash) -> (r: bool)
        ensures
            r == carries(self.nodes@, x as nat, h@),
    {
        if x >= self.nodes.0.len() {
            return false;
        }
        match &self.nodes.0[x] {
            Some(n) => match n.get_parent_hash() {
                Some(ph) => ph.matches(h.copy()),
                None => false,
            },
            None => false,
        }
    }

    /// Checks the parent at `node_index`: the left child must carry its hash
    /// against the right child, or else the first non-blank node down the left
    /// spine of the right child must carry its hash against the left child.
    fn validate_parent_hash(&self, node_index: usize, node: &Parent) -> (r: Result<(), RatchetTreeError>)
        requires
            self.nodes@.len() < usize::MAX,
            node_index < self.nodes@.len(),
            self.nodes@[node_index as int] == Some(Node::Parent(*node)@),
        ensures
            match validate_spec(self.cipher_suite, self.nodes@, node_index as nat, node.parent_hash@) {
                Some(Ok(())) => r is Ok,
                Some(Err(reason)) => r == Err::<(), _>(RatchetTreeError::InvalidParentHash(reason)),
                None => r is Err && !(r matches Err(RatchetTreeError::InvalidParentHash(_))),
            },
    {
        reveal(validate_spec);
        let n = self.leaf_count();
        let mut r = match right(node_index, n) {
            Ok(r) => r,
            Err(e) => {
                return Err(RatchetTreeError::TreeMathError(e));
            },
        };
        let l = match left(node_index) {
            Ok(l) => l,
            Err(e) => {
                return Err(RatchetTreeError::TreeMathError(e));
            },
        };
        let parent_hash_right = self.parent_hash(&node.parent_hash, node_index, r)?;
        if l >= self.nodes.0.len() {
            return Err(RatchetTreeError::NodeVecError(NodeVecError::InvalidNodeIndex));
        }
        if self.node_carries(l, &parent_hash_right) {
            return Ok(());
        }
        let ghost r0 = r as nat;
        while r < self.nodes.0.len() && self.nodes.0[r].is_none() && r % 2 == 1
            invariant
                self.nodes@.len() < usize::MAX,
                descend_blank(self.nodes@, r as nat) == descend_blank(self.nodes@, r0),
            decreases level(r as nat),
        {
            assert(level(r as nat) > 0);
            proof {
                lemma_children(r as nat);
            }
            r = match left(r) {
                Ok(x) => x,
                Err(e) => {
                    return Err(RatchetTreeError::TreeMathError(e));
                },
            };
        }
        if r >= self.nodes.0.len() {
            return Err(RatchetTreeError::NodeVecError(NodeVecError::InvalidNodeIndex));
        }
        assert(descend_blank(self.nodes@, r0) == Some(r as nat));
        if r % 2 == 0 && self.nodes.0[r].is_none() {
            return Err(RatchetTreeError::InvalidParentHash(InvalidReason::BlankLeaf));
        }
        let parent_hash_left = self.parent_hash(&node.parent_hash, node_index, l)?;
        if self.node_carries(r, &parent_hash_left) {
            Ok(())
        } else {
            Err(RatchetTreeError::InvalidParentHash(InvalidReason::NoMatchFound))
        }
    }

    /// Checks every parent of the tree; the first failure is returned.
    pub fn validate_parent_hashes(&self) -> (r: Result<(), RatchetTreeError>)
        requires
            self.nodes@.len() < usize::MAX,
        ensures
            r is Ok <==> forall|i: int| 0 <= i < self.nodes@.len() ==> #[trigger] slot_valid(self.cipher_suite, self.nodes@, i as nat),
            r matches Err(e) ==> exists|i: int|
                0 <= i < self.nodes@.len() && (forall|j: int| 0 <= j < i ==> #[trigger] slot_valid(self.cipher_suite, self.nodes@, j as nat))
                    && #[trigger] slot_error(self.cipher_suite, self.nodes@, i as nat, e),
    {
        let mut i: usize = 0;
        while i < self.nodes.0.len()
            invariant
                i <= self.nodes@.len(),
                self.nodes@.len() < usize::MAX,
                forall|j: int| 0 <= j < i ==> #[trigger] slot_valid(self.cipher_suite, self.nodes@, j as nat),
            decreases self.nodes@.len() - i,
        {
            let ghost ii: int = i as int;
            match &self.nodes.0[i] {
                Some(Node::Parent(p)) => {
                    assert(self.nodes@[ii] == Some(Node::Parent(*p)@));
                    let res = self.validate_parent_hash(i, p);
                    match res {
                        Ok(()) => {
                            assert(slot_valid(self.cipher_suite, self.nodes@, ii as nat));
                        },
                        Err(e) => {
                            assert(!slot_valid(self.cipher_suite, self.nodes@, ii as nat));
                            assert(slot_error(self.cipher_suite, self.nodes@, ii as nat, e));
                            return Err(e);
                        },
                    }
                },
                Some(Node::Leaf(k)) => {
                    assert(self.nodes@[ii] == Some(Node::Leaf(*k)@));
                    assert(slot_valid(self.cipher_suite, self.nodes@, ii as nat));
                },
                None => {
                    assert(self.nodes@[ii] is None);
                    assert(slot_valid(self.cipher_suite, self.nodes@, ii as nat));
                },
            }
            i = i + 1;
        }
        Ok(())
    }
}

/// Two slots hold the same node up to the parent hash it carries.
pub open spec fn same_shape_slot(a: Option<NodeModel>, b: Option<NodeModel>) -> bool {
    match (a, b) {
        (None, None) => true,
        (Some(NodeModel::Leaf { public_key: k1, .. }), Some(NodeModel::Leaf { public_key: k2, .. })) => k1 == k2,
        (
            Some(NodeModel::Parent { public_key: k1, unmerged: u1, .. }),
            Some(NodeModel::Parent { public_key: k2, unmerged: u2, .. }),
        ) => k1 == k2 && u1 == u2,
        _ => false,
    }
}

/// Two trees that differ at most in the parent hashes their nodes carry.
pub open spec fn same_shape(n1: Seq<Option<NodeModel>>, n2: Seq<Option<NodeModel>>) -> bool {
    n1.len() == n2.len() && forall|i: int| 0 <= i < n1.len() ==> #[trigger] same_shape_slot(n1[i], n2[i])
}

proof fn lemma_resolution_same_shape(n1: Seq<Option<NodeModel>>, n2: Seq<Option<NodeModel>>, i: nat)
    requires
        same_shape(n1, n2),
    ensures
        crate::node::resolution_spec(n1, i) == crate::node::resolution_spec(n2, i),
    decreases level(i),
{
    if i < n1.len() {
        assert(same_shape_slot(n1[i as int], n2[i as int]));
        if n1[i as int] is None && level(i) > 0 {
            lemma_children(i);
            crate::tree_math::lemma_descend_left_level(crate::tree_math::right_step(i), crate::tree_math::width(leaf_count_of(n1.len())));
            match (left_of(i), right_of(i, leaf_count_of(n1.len()))) {
                (Some(l), Some(r)) => {
                    lemma_resolution_same_shape(n1, n2, l);
                    lemma_resolution_same_shape(n1, n2, r);
                },
                _ => {},
            }
        }
    }
}

proof fn lemma_keys_same_shape(n1: Seq<Option<NodeModel>>, n2: Seq<Option<NodeModel>>, idxs: Seq<nat>, excl: Seq<nat>)
    requires
        same_shape(n1, n2),
    ensures
        crate::node::keys_excluding(n1, idxs, excl) == crate::node::keys_excluding(n2, idxs, excl),
    decreases idxs.len(),
{
    if idxs.len() > 0 {
        lemma_keys_same_shape(n1, n2, idxs.drop_last(), excl);
        let x = idxs.last();
        if x < n1.len() {
            assert(same_shape_slot(n1[x as int], n2[x as int]));
        }
    }
}

proof fn lemma_node_hash_same_shape(
    cs: CipherSuite,
    n1: Seq<Option<NodeModel>>,
    n2: Seq<Option<NodeModel>>,
    pph: Seq<u8>,
    i: nat,
    c: nat,
)
    requires
        same_shape(n1, n2),
    ensures
        node_parent_hash_spec(cs, n1, pph, i, c) == node_parent_hash_spec(cs, n2, pph, i, c),
{
    if i < n1.len() {
        assert(same_shape_slot(n1[i as int], n2[i as int]));
        lemma_resolution_same_shape(n1, n2, c);
        match n1[i as int] {
            Some(NodeModel::Parent { unmerged, .. }) => {
                match crate::node::resolution_spec(n1, c) {
                    Some(res) => lemma_keys_same_shape(n1, n2, res, crate::node::leaf_nodes(unmerged)),
                    None => {},
                }
            },
            _ => {},
        }
    }
}

proof fn lemma_chain_same_shape(
    cs: CipherSuite,
    n1: Seq<Option<NodeModel>>,
    n2: Seq<Option<NodeModel>>,
    pairs: Seq<(nat, nat)>,
    acc: Seq<u8>,
)
    requires
        same_shape(n1, n2),
    ensures
        chain_spec(cs, n1, pairs, acc) == chain_spec(cs, n2, pairs, acc),
    decreases pairs.len(),
{
    if pairs.len() > 0 {
        lemma_node_hash_same_shape(cs, n1, n2, acc, pairs[0].0, pairs[0].1);
        match node_parent_hash_spec(cs, n1, acc, pairs[0].0, pairs[0].1) {
            Some(h) => lemma_chain_same_shape(cs, n1, n2, pairs.drop_first(), h),
            None => {},
        }
    }
}

/// The hash that the last change for slot `i` in `ch` writes, if any.
pub open spec fn last_change(ch: Seq<(nat, Seq<u8>)>, i: nat) -> Option<Seq<u8>>
    decreases ch.len(),
{
    if ch.len() == 0 {
        None
    } else if ch.last().0 == i {
        Some(ch.last().1)
    } else {
        last_change(ch.drop_last(), i)
    }
}

/// Slot `i` of `nodes` after the changes `ch`: a parent takes the last hash
/// written to it; every other slot is unchanged.
pub open spec fn changed_slot(nodes: Seq<Option<NodeModel>>, ch: Seq<(nat, Seq<u8>)>, i: int) -> Option<NodeModel> {
    match (nodes[i], last_change(ch, i as nat)) {
        (Some(NodeModel::Parent { public_key, unmerged, .. }), Some(h)) => Some(
            NodeModel::Parent { public_key, parent_hash: h, unmerged },
        ),
        _ => nodes[i],
    }
}

proof fn lemma_apply_pointwise(nodes: Seq<Option<NodeModel>>, ch: Seq<(nat, Seq<u8>)>)
    ensures
        apply_changes(nodes, ch).len() == nodes.len(),
        forall|i: int| 0 <= i < nodes.len() ==> #[trigger] apply_changes(nodes, ch)[i] == changed_slot(nodes, ch, i),
    decreases ch.len(),
{
    if ch.len() > 0 {
        lemma_apply_pointwise(nodes, ch.drop_last());
        let prev = apply_changes(nodes, ch.drop_last());
        assert forall|i: int| 0 <= i < nodes.len() implies #[trigger] apply_changes(nodes, ch)[i] == changed_slot(nodes, ch, i) by {
            assert(prev[i] == changed_slot(nodes, ch.drop_last(), i));
        }
    }
}

/// Applying recorded parent hashes twice leaves the tree as one application
/// does.
pub proof fn lemma_apply_changes_twice(nodes: Seq<Option<NodeModel>>, ch: Seq<(nat, Seq<u8>)>)
    ensures
        apply_changes(apply_changes(nodes, ch), ch) == apply_changes(nodes, ch),
        same_shape(apply_changes(nodes, ch), nodes),
{
    let a = apply_changes(nodes, ch);
    lemma_apply_pointwise(nodes, ch);
    lemma_apply_pointwise(a, ch);
    assert forall|i: int| 0 <= i < nodes.len() implies #[trigger] same_shape_slot(a[i], nodes[i]) by {
        assert(a[i] == changed_slot(nodes, ch, i));
    }
    assert forall|i: int| 0 <= i < a.len() implies #[trigger] apply_changes(a, ch)[i] == a[i] by {
        assert(a[i] == changed_slot(nodes, ch, i));
        assert(apply_changes(a, ch)[i] == changed_slot(a, ch, i));
    }
    assert(apply_changes(a, ch) =~= a);
}

/// Committing twice from the same leaf, with no other change between, yields
/// the same leaf hash and the same recorded hashes, and the second commit
/// leaves the tree as the first one left it.
pub proof fn lemma_update_parent_hashes_idempotent(cs: CipherSuite, nodes: Seq<Option<NodeModel>>, leaf: nat)
    ensures
        leaf_chain_spec(cs, nodes, leaf) matches Some((h, ch)) ==> {
            &&& leaf_chain_spec(cs, apply_changes(nodes, ch), leaf) == Some((h, ch))
            &&& apply_changes(apply_changes(nodes, ch), ch) == apply_changes(nodes, ch)
        },
{
    match leaf_chain_spec(cs, nodes, leaf) {
        Some((h, ch)) => {
            lemma_apply_changes_twice(nodes, ch);
            let a = apply_changes(nodes, ch);
            assert forall|i: int| 0 <= i < nodes.len() implies #[trigger] same_shape_slot(nodes[i], a[i]) by {
                assert(same_shape_slot(a[i], nodes[i]));
            }
            if leaf_count_of(nodes.len()) > 1 {
                match direct_path_spec(leaf, leaf_count_of(nodes.len())) {
                    Some(p) => lemma_chain_same_shape(cs, nodes, a, p, Seq::empty()),
                    None => {},
                }
            }
        },
        None => {},
    }
}

/// `nodes` with the leaf at `x` carrying the parent hash `h`.
pub open spec fn with_leaf_hash(nodes: Seq<Option<NodeModel>>, x: nat, h: Seq<u8>) -> Seq<Option<NodeModel>> {
    match nodes[x as int] {
        Some(NodeModel::Leaf { public_key, .. }) => nodes.update(
            x as int,
            Some(NodeModel::Leaf { public_key, leaf_parent_hash: Some(h) }),
        ),
        _ => nodes,
    }
}

/// The tree after a commit by `leaf`: the recorded hashes stored in the
/// parents, and the committer's key package carrying the leaf hash.
pub open spec fn committed_tree(cs: CipherSuite, nodes: Seq<Option<NodeModel>>, leaf: nat) -> Seq<
    Option<NodeModel>,
> {
    match leaf_chain_spec(cs, nodes, leaf) {
        Some((h, ch)) => with_leaf_hash(apply_changes(nodes, ch), 2 * leaf, h),
        None => nodes,
    }
}

/// Slot `i` is a parent on the direct path of `leaf`.
pub open spec fn on_direct_path(nodes: Seq<Option<NodeModel>>, leaf: nat, i: nat) -> bool {
    match direct_path_spec(leaf, leaf_count_of(nodes.len())) {
        Some(p) => exists|k: int| 0 <= k < p.len() && #[trigger] p[k].0 == i,
        None => false,
    }
}

/// Along a path, levels strictly decrease, each pair holds the two children of
/// its parent, and the path ends at `x`.
proof fn lemma_path_shape(node: nat, x: nat, n: nat)
    requires
        path_from(node, x, n) is Some,
    ensures
        ({
            let p = path_from(node, x, n)->Some_0;
            &&& forall|k: int| 0 <= k < p.len() ==> level(#[trigger] p[k].0) > level(x) && level(p[k].0) <= level(node)
            &&& forall|j: int, k: int| 0 <= j < k < p.len() ==> level(#[trigger] p[j].0) > level(#[trigger] p[k].0)
            &&& p.len() > 0 ==> p[0].0 == node
            &&& p.len() == 0 ==> node == x
        }),
    decreases level(node),
{
    if node != x {
        lemma_children(node);
        crate::tree_math::lemma_descend_left_level(crate::tree_math::right_step(node), crate::tree_math::width(n));
        let l = left_of(node)->Some_0;
        let r = right_of(node, n)->Some_0;
        let next = if x < node { l } else { r };
        lemma_path_shape(next, x, n);
        let rest = path_from(next, x, n)->Some_0;
        let p = path_from(node, x, n)->Some_0;
        assert(p == seq![(node, if x < node { r } else { l })] + rest);
        assert forall|k: int| 0 <= k < p.len() implies level(#[trigger] p[k].0) > level(x) && level(p[k].0) <= level(node) by {
            if k > 0 {
                assert(p[k] == rest[k - 1]);
            } else if rest.len() == 0 {
                assert(next == x);
            } else {
                assert(rest[0].0 == next);
            }
        }
        assert forall|j: int, k: int| 0 <= j < k < p.len() implies level(#[trigger] p[j].0) > level(#[trigger] p[k].0) by {
            assert(p[k] == rest[k - 1]);
            if j > 0 {
                assert(p[j] == rest[j - 1]);
            }
        }
    }
}

/// The changes a chain records follow the path, one per pair.
proof fn lemma_chain_records(
    cs: CipherSuite,
    nodes: Seq<Option<NodeModel>>,
    pairs: Seq<(nat, nat)>,
    acc: Seq<u8>,
)
    requires
        chain_spec(cs, nodes, pairs, acc) is Some,
    ensures
        ({
            let ch = chain_spec(cs, nodes, pairs, acc)->Some_0.1;
            &&& ch.len() == pairs.len()
            &&& forall|k: int| 0 <= k < pairs.len() ==> #[trigger] ch[k].0 == pairs[k].0
            &&& forall|k: int| 0 <= k < pairs.len() ==> #[trigger] pairs[k].0 < nodes.len() && nodes[pairs[k].0 as int] is Some
                && nodes[pairs[k].0 as int]->Some_0 is Parent
            &&& pairs.len() > 0 ==> ch[0].1 == acc
        }),
    decreases pairs.len(),
{
    if pairs.len() > 0 {
        let h = node_parent_hash_spec(cs, nodes, acc, pairs[0].0, pairs[0].1)->Some_0;
        lemma_chain_records(cs, nodes, pairs.drop_first(), h);
        let rest = chain_spec(cs, nodes, pairs.drop_first(), h)->Some_0.1;
        let ch = chain_spec(cs, nodes, pairs, acc)->Some_0.1;
        assert forall|k: int| 0 <= k < pairs.len() implies #[trigger] ch[k].0 == pairs[k].0 by {
            if k > 0 {
                assert(ch[k] == rest[k - 1]);
                assert(pairs.drop_first()[k - 1] == pairs[k]);
            }
        }
        assert forall|k: int| 0 <= k < pairs.len() implies #[trigger] pairs[k].0 < nodes.len() && nodes[pairs[k].0 as int] is Some
                && nodes[pairs[k].0 as int]->Some_0 is Parent by {
            if k > 0 {
                assert(pairs.drop_first()[k - 1] == pairs[k]);
            }
        }
    }
}

proof fn lemma_last_change_unique(ch: Seq<(nat, Seq<u8>)>, k: int)
    requires
        0 <= k < ch.len(),
        forall|j: int| 0 <= j < ch.len() && j != k ==> ch[j].0 != ch[k].0,
    ensures
        last_change(ch, ch[k].0) == Some(ch[k].1),
    decreases ch.len(),
{
    if ch.len() - 1 != k {
        assert(ch.last().0 != ch[k].0);
        lemma_last_change_unique(ch.drop_last(), k);
    }
}

proof fn lemma_last_change_absent(ch: Seq<(nat, Seq<u8>)>, i: nat)
    requires
        forall|j: int| 0 <= j < ch.len() ==> ch[j].0 != i,
    ensures
        last_change(ch, i) is None,
    decreases ch.len(),
{
    if ch.len() > 0 {
        lemma_last_change_absent(ch.drop_last(), i);
    }
}

/// One parent of the path passes its check when the child towards the leaf
/// carries its hash against the other child.
proof fn lemma_step_validates(
    cs: CipherSuite,
    f: Seq<Option<NodeModel>>,
    node: nat,
    l: nat,
    r: nat,
    towards_left: bool,
    acc: Seq<u8>,
    h1: Seq<u8>,
)
    requires
        left_of(node) == Some(l),
        right_of(node, leaf_count_of(f.len())) == Some(r),
        l < f.len(),
        r < f.len(),
        node_parent_hash_spec(cs, f, acc, node, r) is Some,
        towards_left ==> node_parent_hash_spec(cs, f, acc, node, r) == Some(h1) && carries(f, l, h1),
        !towards_left ==> node_parent_hash_spec(cs, f, acc, node, l) == Some(h1) && carries(f, r, h1),
    ensures
        validate_spec(cs, f, node, acc) matches Some(Ok(_)),
{
    reveal(validate_spec);
    if !towards_left {
        assert(f[r as int] is Some);
        assert(descend_blank(f, r) == Some(r));
    }
}

/// Every parent on the path from `node` to `x` can hash itself against either
/// child, with the hash the chain from `acc` records for it.
pub open spec fn path_hashable(
    cs: CipherSuite,
    nodes: Seq<Option<NodeModel>>,
    p: Seq<(nat, nat)>,
    ch: Seq<(nat, Seq<u8>)>,
) -> bool {
    forall|k: int|
        0 <= k < p.len() ==> {
            &&& #[trigger] node_parent_hash_spec(cs, nodes, ch[k].1, p[k].0, left_spec(p[k].0)) is Some
            &&& node_parent_hash_spec(cs, nodes, ch[k].1, p[k].0, right_spec(p[k].0, leaf_count_of(nodes.len()))) is Some
        }
}

/// Along the path from `node` to `x`, in a tree `f` of the same shape that
/// stores each recorded hash at its parent and whose node `x` carries the leaf
/// hash, every parent of the path passes its check.
proof fn lemma_path_validates(
    cs: CipherSuite,
    nodes: Seq<Option<NodeModel>>,
    f: Seq<Option<NodeModel>>,
    node: nat,
    x: nat,
    acc: Seq<u8>,
)
    requires
        same_shape(nodes, f),
        path_from(node, x, leaf_count_of(nodes.len())) is Some,
        chain_spec(cs, nodes, path_from(node, x, leaf_count_of(nodes.len()))->Some_0, acc) is Some,
        path_hashable(
            cs,
            nodes,
            path_from(node, x, leaf_count_of(nodes.len()))->Some_0,
            chain_spec(cs, nodes, path_from(node, x, leaf_count_of(nodes.len()))->Some_0, acc)->Some_0.1,
        ),
        forall|k: int| 0 <= k < path_from(node, x, leaf_count_of(nodes.len()))->Some_0.len() ==> carries(
            f,
            #[trigger] path_from(node, x, leaf_count_of(nodes.len()))->Some_0[k].0,
            chain_spec(cs, nodes, path_from(node, x, leaf_count_of(nodes.len()))->Some_0, acc)->Some_0.1[k].1,
        ),
        carries(f, x, chain_spec(cs, nodes, path_from(node, x, leaf_count_of(nodes.len()))->Some_0, acc)->Some_0.0),
    ensures
        forall|k: int| 0 <= k < path_from(node, x, leaf_count_of(nodes.len()))->Some_0.len() ==> validate_spec(
            cs,
            f,
            #[trigger] path_from(node, x, leaf_count_of(nodes.len()))->Some_0[k].0,
            chain_spec(cs, nodes, path_from(node, x, leaf_count_of(nodes.len()))->Some_0, acc)->Some_0.1[k].1,
        ) matches Some(Ok(_)),
    decreases level(node),
{
    let n = leaf_count_of(nodes.len());
    let p = path_from(node, x, n)->Some_0;
    let h = chain_spec(cs, nodes, p, acc)->Some_0.0;
    let ch = chain_spec(cs, nodes, p, acc)->Some_0.1;
    if node != x {
        lemma_children(node);
        crate::tree_math::lemma_descend_left_level(crate::tree_math::right_step(node), crate::tree_math::width(n));
        let l = left_of(node)->Some_0;
        let r = right_of(node, n)->Some_0;
        let next = if x < node { l } else { r };
        let sib = if x < node { r } else { l };
        let rest = path_from(next, x, n)->Some_0;
        assert(p == seq![(node, sib)] + rest);
        assert(p.drop_first() =~= rest);
        let h1 = node_parent_hash_spec(cs, nodes, acc, node, sib)->Some_0;
        let h2 = chain_spec(cs, nodes, rest, h1)->Some_0.0;
        let ch_rest = chain_spec(cs, nodes, rest, h1)->Some_0.1;
        assert(h2 == h);
        assert(ch == seq![(node, acc)] + ch_rest);
        lemma_chain_records(cs, nodes, rest, h1);
        lemma_path_shape(next, x, n);
        assert(carries(f, next, h1)) by {
            if rest.len() == 0 {
                assert(next == x);
            } else {
                assert(rest[0].0 == next);
                assert(p[1] == rest[0]);
                assert(ch[1] == ch_rest[0]);
                assert(ch_rest[0].1 == h1);
            }
        }
        assert(p[0] == (node, sib));
        assert(ch[0].1 == acc);
        lemma_node_hash_same_shape(cs, nodes, f, acc, node, l);
        lemma_node_hash_same_shape(cs, nodes, f, acc, node, r);
        assert(node < nodes.len());
        lemma_step_validates(cs, f, node, l, r, x < node, acc, h1);
        assert forall|k: int| 0 <= k < rest.len() implies carries(f, #[trigger] rest[k].0, ch_rest[k].1) by {
            assert(p[k + 1] == rest[k]);
            assert(ch[k + 1] == ch_rest[k]);
        }
        assert forall|k: int| 0 <= k < rest.len() implies {
            &&& #[trigger] node_parent_hash_spec(cs, nodes, ch_rest[k].1, rest[k].0, left_spec(rest[k].0)) is Some
            &&& node_parent_hash_spec(cs, nodes, ch_rest[k].1, rest[k].0, right_spec(rest[k].0, n)) is Some
        } by {
            assert(p[k + 1] == rest[k]);
            assert(ch[k + 1] == ch_rest[k]);
        }
        lemma_path_validates(cs, nodes, f, next, x, h1);
        assert forall|k: int| 0 <= k < p.len() implies validate_spec(cs, f, #[trigger] p[k].0, ch[k].1) matches Some(Ok(_)) by {
            if k > 0 {
                assert(p[k] == rest[k - 1]);
                assert(ch[k] == ch_rest[k - 1]);
            }
        }
    }
}

/// A commit by `leaf` leaves a tree that passes validation, once the
/// committer's key package carries the returned hash: provided every parent
/// off its direct path is blank and each parent on it can hash itself against
/// either child.
pub proof fn lemma_committed_tree_validates(cs: CipherSuite, nodes: Seq<Option<NodeModel>>, leaf: nat)
    requires
        leaf_chain_spec(cs, nodes, leaf) is Some,
        2 * leaf < nodes.len(),
        nodes[2 * leaf as int] is Some && nodes[2 * leaf as int]->Some_0 is Leaf,
        forall|i: int| 0 <= i < nodes.len() && #[trigger] nodes[i] is Some && nodes[i]->Some_0 is Parent ==> on_direct_path(nodes, leaf, i as nat),
        leaf_count_of(nodes.len()) > 1 ==> path_hashable(
            cs,
            nodes,
            direct_path_spec(leaf, leaf_count_of(nodes.len()))->Some_0,
            leaf_chain_spec(cs, nodes, leaf)->Some_0.1,
        ),
    ensures
        forall|i: int| 0 <= i < nodes.len() ==> #[trigger] slot_valid(cs, committed_tree(cs, nodes, leaf), i as nat),
{
    let n = leaf_count_of(nodes.len());
    let x = 2 * leaf;
    let (h, ch) = leaf_chain_spec(cs, nodes, leaf)->Some_0;
    let a = apply_changes(nodes, ch);
    let f = committed_tree(cs, nodes, leaf);
    lemma_apply_changes_twice(nodes, ch);
    lemma_apply_pointwise(nodes, ch);
    assert(f == with_leaf_hash(a, x, h));
    assert(a[x as int] == changed_slot(nodes, ch, x as int));
    assert(f.len() == nodes.len());
    assert forall|i: int| 0 <= i < nodes.len() implies #[trigger] same_shape_slot(nodes[i], f[i]) by {
        assert(same_shape_slot(a[i], nodes[i]));
    }
    if n <= 1 {
        assert(crate::tree_math::top_pow(1, 1) == 1);
        assert(direct_path_spec(leaf, n) == Some(Seq::<(nat, nat)>::empty()));
        assert forall|i: int| 0 <= i < nodes.len() implies #[trigger] slot_valid(cs, f, i as nat) by {
            assert(same_shape_slot(nodes[i], f[i]));
        }
    } else {
        let p = direct_path_spec(leaf, n)->Some_0;
        let root = crate::tree_math::root_spec(n);
        assert(p == path_from(root, x, n)->Some_0);
        lemma_chain_records(cs, nodes, p, Seq::empty());
        lemma_path_shape(root, x, n);
        assert forall|k: int| 0 <= k < p.len() implies carries(f, #[trigger] p[k].0, ch[k].1) by {
            assert forall|j: int| 0 <= j < ch.len() && j != k implies ch[j].0 != ch[k].0 by {
                assert(ch[j].0 == p[j].0);
                assert(ch[k].0 == p[k].0);
                if j < k {
                    assert(level(p[j].0) > level(p[k].0));
                } else {
                    assert(level(p[k].0) > level(p[j].0));
                }
            }
            lemma_last_change_unique(ch, k);
            assert(a[p[k].0 as int] == changed_slot(nodes, ch, p[k].0 as int));
            assert(level(p[k].0) > level(x));
        }
        assert forall|j: int| 0 <= j < ch.len() implies ch[j].0 != x by {
            assert(ch[j].0 == p[j].0);
            assert(level(p[j].0) > level(x));
        }
        lemma_last_change_absent(ch, x);
        assert(carries(f, x, h));
        lemma_path_validates(cs, nodes, f, root, x, Seq::empty());
        assert forall|i: int| 0 <= i < nodes.len() implies #[trigger] slot_valid(cs, f, i as nat) by {
            assert(same_shape_slot(nodes[i], f[i]));
            if nodes[i] is Some && nodes[i]->Some_0 is Parent {
                assert(on_direct_path(nodes, leaf, i as nat));
                let k = choose|k: int| 0 <= k < p.len() && #[trigger] p[k].0 == i as nat;
                assert(carries(f, p[k].0, ch[k].1));
            }
        }
    }
}

} // verus!
