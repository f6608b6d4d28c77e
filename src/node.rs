//! Tree nodes, the array that holds them, and the resolution of a node.

use vstd::prelude::*;

use crate::parent_hash::ParentHash;
use crate::codec::copy_bytes;
use crate::tree_math::{left, left_of, level, lemma_children, lemma_descend_left_level, right, right_of, right_step, width, TreeMathError};

verus! {

/// The position of a leaf among the leaves.
#[derive(Clone, Copy, Debug, PartialEq, Eq, Hash, Structural)]
pub struct LeafIndex(pub usize);

/// The key package of a member: its public key and, as an extension, the
/// parent hash it commits to.
#[derive(Clone, Debug, PartialEq, Eq)]
pub struct KeyPackage {
    pub public_key: Vec<u8>,
    pub parent_hash: Option<ParentHash>,
}

#[derive(Clone, Debug, PartialEq, Eq)]
pub struct Parent {
    pub public_key: Vec<u8>,
    pub parent_hash: ParentHash,
    pub unmerged_leaves: Vec<LeafIndex>,
}

#[derive(Clone, Debug, PartialEq, Eq)]
pub enum Node {
    Parent(Parent),
    Leaf(KeyPackage),
}

/// A left-balanced binary tree as an array: leaves at even indices, parents at
/// odd ones, `None` for a blank slot.
#[derive(Clone, Debug, PartialEq, Eq)]
pub struct NodeVec(pub Vec<Option<Node>>);

/// The abstract content of a node.
pub enum NodeModel {
    Parent { public_key: Seq<u8>, parent_hash: Seq<u8>, unmerged: Seq<usize> },
    Leaf { public_key: Seq<u8>, leaf_parent_hash: Option<Seq<u8>> },
}

impl NodeModel {
    pub open spec fn public_key(self) -> Seq<u8> {
        match self {
            NodeModel::Parent { public_key, .. } => public_key,
            NodeModel::Leaf { public_key, .. } => public_key,
        }
    }

    /// The parent hash a node carries: a parent's field, or a leaf's extension.
    pub open spec fn parent_hash(self) -> Option<Seq<u8>> {
        match self {
            NodeModel::Parent { parent_hash, .. } => Some(parent_hash),
            NodeModel::Leaf { leaf_parent_hash, .. } => leaf_parent_hash,
        }
    }
}

pub open spec fn leaves_view(v: Seq<LeafIndex>) -> Seq<usize> {
    v.map_values(|l: LeafIndex| l.0)
}

impl View for Node {
    type V = NodeModel;

    open spec fn view(&self) -> NodeModel {
        match self {
            Node::Parent(p) => NodeModel::Parent {
                public_key: p.public_key@,
                parent_hash: p.parent_hash@,
                unmerged: leaves_view(p.unmerged_leaves@),
            },
            Node::Leaf(k) => NodeModel::Leaf {
                public_key: k.public_key@,
                leaf_parent_hash: match k.parent_hash {
                    Some(h) => Some(h@),
                    None => None,
                },
            },
        }
    }
}

pub open spec fn slot_view(o: Option<Node>) -> Option<NodeModel> {
    match o {
        Some(n) => Some(n@),
        None => None,
    }
}

impl View for NodeVec {
    type V = Seq<Option<NodeModel>>;

    open spec fn view(&self) -> Seq<Option<NodeModel>> {
        self.0@.map_values(|o: Option<Node>| slot_view(o))
    }
}

/// The number of leaves of a tree with `len` slots.
pub open spec fn leaf_count_of(len: nat) -> nat {
    (len + 1) / 2
}

/// The node indices of the given leaves.
pub open spec fn leaf_nodes(ls: Seq<usize>) -> Seq<nat> {
    ls.map_values(|l: usize| (2 * l) as nat)
}

/// The resolution of node `i`: the node itself and a parent's unmerged leaves
/// when it is not blank; nothing for a blank leaf; the resolutions of both
/// children, left first, for a blank parent. `None` when an index leaves the tree.
pub open spec fn resolution_spec(nodes: Seq<Option<NodeModel>>, i: nat) -> Option<Seq<nat>>
    decreases level(i),
    via resolution_decreases
{
    if i >= nodes.len() {
        None
    } else {
        match nodes[i as int] {
            Some(NodeModel::Parent { unmerged, .. }) => {
                if forall|j: int| 0 <= j < unmerged.len() ==> 2 * unmerged[j] < nodes.len() {
                    Some(seq![i] + leaf_nodes(unmerged))
                } else {
                    None
                }
            },
            Some(NodeModel::Leaf { .. }) => Some(seq![i]),
            None => {
                if level(i) == 0 {
                    Some(Seq::empty())
                } else {
                    match (left_of(i), right_of(i, leaf_count_of(nodes.len()))) {
                        (Some(l), Some(r)) => match (
                            resolution_spec(nodes, l),
                            resolution_spec(nodes, r),
                        ) {
                            (Some(a), Some(b)) => Some(a + b),
                            _ => None,
                        },
                        _ => None,
                    }
                }
            },
        }
    }
}

#[via_fn]
proof fn resolution_decreases(nodes: Seq<Option<NodeModel>>, i: nat) {
    if i < nodes.len() && nodes[i as int] is None && level(i) > 0 {
        lemma_children(i);
        lemma_descend_left_level(right_step(i), width(leaf_count_of(nodes.len())));
    }
}

/// The public keys of the nodes at `idxs`, leaving out those in `excl`; `None`
/// when one of the others is blank or outside the tree.
pub open spec fn keys_excluding(
    nodes: Seq<Option<NodeModel>>,
    idxs: Seq<nat>,
    excl: Seq<nat>,
) -> Option<Seq<Seq<u8>>>
    decreases idxs.len(),
{
    if idxs.len() == 0 {
        Some(Seq::empty())
    } else {
        match keys_excluding(nodes, idxs.drop_last(), excl) {
            None => None,
            Some(prev) => {
                let x = idxs.last();
                if excl.contains(x) {
                    Some(prev)
                } else if x < nodes.len() && nodes[x as int] is Some {
                    Some(prev.push(nodes[x as int]->Some_0.public_key()))
                } else {
                    None
                }
            },
        }
    }
}

proof fn lemma_keys_prefix_none(nodes: Seq<Option<NodeModel>>, idxs: Seq<nat>, k: int, excl: Seq<nat>)
    requires
        0 <= k <= idxs.len(),
        keys_excluding(nodes, idxs.take(k), excl) is None,
    ensures
        keys_excluding(nodes, idxs, excl) is None,
    decreases idxs.len() - k,
{
    if k == idxs.len() {
        assert(idxs.take(k) =~= idxs);
    } else {
        assert(idxs.take(k + 1).drop_last() =~= idxs.take(k));
        lemma_keys_prefix_none(nodes, idxs, k + 1, excl);
    }
}

/// The original child resolution of `c` for a parent with unmerged leaves
/// `unmerged`: the public keys of `c`'s resolution without those leaves.
pub open spec fn ocr_spec(nodes: Seq<Option<NodeModel>>, unmerged: Seq<usize>, c: nat) -> Option<Seq<Seq<u8>>> {
    match resolution_spec(nodes, c) {
        Some(res) => keys_excluding(nodes, res, leaf_nodes(unmerged)),
        None => None,
    }
}

/// A failure to find a node.
#[derive(Clone, Copy, Debug, PartialEq, Eq, Structural)]
pub enum NodeVecError {
    /// The index lies outside the array.
    InvalidNodeIndex,
    /// The slot is blank, or holds a leaf where a parent is needed.
    NotParent,
    /// The index arithmetic failed.
    TreeMath(TreeMathError),
}

pub open spec fn keys_view(v: Seq<Vec<u8>>) -> Seq<Seq<u8>> {
    v.map_values(|k: Vec<u8>| k@)
}

impl Node {
    pub fn get_public_key(&self) -> (r: &[u8])
        ensures
            r@ == self@.public_key(),
    {
        match self {
            Node::Parent(p) => p.public_key.as_slice(),
            Node::Leaf(k) => k.public_key.as_slice(),
        }
    }

    /// The parent hash of a parent, or the parent-hash extension of a leaf.
    pub fn get_parent_hash(&self) -> (r: Option<ParentHash>)
        ensures
            match r {
                Some(h) => self@.parent_hash() == Some(h@),
                None => self@.parent_hash() is None,
            },
    {
        match self {
            Node::Parent(p) => Some(p.parent_hash.copy()),
            Node::Leaf(k) => match &k.parent_hash {
                Some(h) => Some(h.copy()),
                None => None,
            },
        }
    }
}

pub open spec fn indices_view(v: Seq<usize>) -> Seq<nat> {
    v.map_values(|x: usize| x as nat)
}

fn contains_leaf_node(v: &Vec<LeafIndex>, x: usize) -> (r: bool)
    ensures
        r == leaf_nodes(leaves_view(v@)).contains(x as nat),
{
    let ghost lv = leaf_nodes(leaves_view(v@));
    let mut i: usize = 0;
    while i < v.len()
        invariant
            i <= v@.len(),
            lv == leaf_nodes(leaves_view(v@)),
            forall|j: int| 0 <= j < i ==> lv[j] != x as nat,
        decreases v@.len() - i,
    {
        if x % 2 == 0 && v[i].0 == x / 2 {
            assert(lv[i as int] == x as nat);
            return true;
        }
        assert(lv[i as int] == 2 * v@[i as int].0);
        i = i + 1;
    }
    false
}

impl NodeVec {
    pub fn len(&self) -> (r: usize)
        ensures
            r == self@.len(),
    {
        self.0.len()
    }

    pub fn leaf_count(&self) -> (r: usize)
        ensures
            r == leaf_count_of(self@.len()),
    {
        if self.0.len() == 0 {
            0
        } else {
            (self.0.len() - 1) / 2 + 1
        }
    }

    pub fn borrow_node(&self, index: usize) -> (r: Result<&Option<Node>, NodeVecError>)
        ensures
            r is Ok <==> index < self@.len(),
            r matches Ok(n) ==> slot_view(*n) == self@[index as int],
    {
        if index < self.0.len() {
            Ok(&self.0[index])
        } else {
            Err(NodeVecError::InvalidNodeIndex)
        }
    }

    pub fn borrow_as_parent(&self, index: usize) -> (r: Result<&Parent, NodeVecError>)
        ensures
            r is Ok <==> (index < self@.len() && self@[index as int] matches Some(NodeModel::Parent { .. })),
            r matches Ok(p) ==> self@[index as int] == Some(Node::Parent(*p)@),
    {
        if index >= self.0.len() {
            return Err(NodeVecError::InvalidNodeIndex);
        }
        match &self.0[index] {
            Some(Node::Parent(p)) => Ok(p),
            _ => Err(NodeVecError::NotParent),
        }
    }

    /// Appends the resolution of `index` to `out`.
    fn get_resolution(&self, index: usize, out: &mut Vec<usize>) -> (r: Result<(), NodeVecError>)
        requires
            self@.len() < usize::MAX,
        ensures
            r is Ok <==> resolution_spec(self@, index as nat) is Some,
            r is Ok ==> indices_view(final(out)@) == indices_view(old(out)@) + resolution_spec(self@, index as nat)->Some_0,
        decreases level(index as nat),
    {
        if index >= self.0.len() {
            return Err(NodeVecError::InvalidNodeIndex);
        }
        match &self.0[index] {
            Some(Node::Parent(p)) => {
                let ghost start = out@;
                let ghost um = leaves_view(p.unmerged_leaves@);
                assert(self@[index as int] == Some(Node::Parent(*p)@));
                let mut j: usize = 0;
                let mut pushed: Vec<usize> = Vec::new();
                pushed.push(index);
                while j < p.unmerged_leaves.len()
                    invariant
                        j <= um.len(),
                        um == leaves_view(p.unmerged_leaves@),
                        index < self@.len(),
                        self@[index as int] == Some(Node::Parent(*p)@),
                        self@.len() < usize::MAX,
                        forall|k: int| 0 <= k < j ==> 2 * um[k] < self@.len(),
                        indices_view(pushed@) == seq![index as nat] + leaf_nodes(um.take(j as int)),
                    decreases um.len() - j,
                {
                    let l = p.unmerged_leaves[j].0;
                    assert(um[j as int] == l);
                    if l >= self.0.len() / 2 + 1 || 2 * l >= self.0.len() {
                        assert(!(2 * um[j as int] < self@.len()));
                        assert(!(forall|jj: int| 0 <= jj < um.len() ==> 2 * um[jj] < self@.len()));
                        assert(resolution_spec(self@, index as nat) is None);
                        return Err(NodeVecError::InvalidNodeIndex);
                    }
                    let ghost before = pushed@;
                    pushed.push(2 * l);
                    assert(indices_view(pushed@) =~= indices_view(before).push(2 * l as nat));
                    j = j + 1;
                    assert(leaf_nodes(um.take(j as int)) =~= leaf_nodes(um.take(j - 1)).push(2 * l as nat));
                    assert(indices_view(pushed@) =~= seq![index as nat] + leaf_nodes(um.take(j as int)));
                }
                assert(um.take(j as int) =~= um);
                let mut k: usize = 0;
                while k < pushed.len()
                    invariant
                        k <= pushed@.len(),
                        indices_view(out@) == indices_view(start) + indices_view(pushed@.take(k as int)),
                    decreases pushed@.len() - k,
                {
                    let ghost before = out@;
                    out.push(pushed[k]);
                    assert(indices_view(out@) =~= indices_view(before).push(pushed@[k as int] as nat));
                    k = k + 1;
                    assert(indices_view(pushed@.take(k as int)) =~= indices_view(pushed@.take(k - 1)).push(pushed@[k - 1] as nat));
                    assert(indices_view(out@) =~= indices_view(start) + indices_view(pushed@.take(k as int)));
                }
                assert(pushed@.take(k as int) =~= pushed@);
                Ok(())
            },
            Some(Node::Leaf(_)) => {
                out.push(index);
                assert(indices_view(final(out)@) =~= indices_view(old(out)@) + seq![index as nat]);
                Ok(())
            },
            None => {
                if index % 2 == 0 {
                    assert(indices_view(final(out)@) =~= indices_view(old(out)@) + Seq::empty());
                    return Ok(());
                }
                let n = self.leaf_count();
                let l = match left(index) {
                    Ok(l) => l,
                    Err(e) => {
                        return Err(NodeVecError::TreeMath(e));
                    },
                };
                let r = match right(index, n) {
                    Ok(r) => r,
                    Err(e) => {
                        return Err(NodeVecError::TreeMath(e));
                    },
                };
                proof {
                    lemma_children(index as nat);
                    lemma_descend_left_level(right_step(index as nat), width(n as nat));
                }
                let ghost o0 = indices_view(out@);
                self.get_resolution(l, out)?;
                let ghost o1 = indices_view(out@);
                self.get_resolution(r, out)?;
                assert(indices_view(out@) =~= o0 + (resolution_spec(self@, l as nat)->Some_0 + resolution_spec(self@, r as nat)->Some_0));
                Ok(())
            },
        }
    }

    /// The public keys of the resolution of `index`, leaving out the unmerged
    /// leaves of `parent`.
    pub fn original_child_resolution(&self, parent: &Parent, index: usize) -> (r: Result<
        Vec<Vec<u8>>,
        NodeVecError,
    >)
        requires
            self@.len() < usize::MAX,
        ensures
            r is Ok <==> ocr_spec(self@, leaves_view(parent.unmerged_leaves@), index as nat) is Some,
            r matches Ok(v) ==> ocr_spec(self@, leaves_view(parent.unmerged_leaves@), index as nat) == Some(keys_view(v@)),
    {
        let ghost um = leaves_view(parent.unmerged_leaves@);
        let mut res: Vec<usize> = Vec::new();
        self.get_resolution(index, &mut res)?;
        let ghost idxs = indices_view(res@);
        assert(idxs =~= resolution_spec(self@, index as nat)->Some_0);
        let mut keys: Vec<Vec<u8>> = Vec::new();
        let mut i: usize = 0;
        while i < res.len()
            invariant
                i <= res@.len(),
                idxs == indices_view(res@),
                resolution_spec(self@, index as nat) == Some(idxs),
                um == leaves_view(parent.unmerged_leaves@),
                keys_excluding(self@, idxs.take(i as int), leaf_nodes(um)) == Some(keys_view(keys@)),
            decreases res@.len() - i,
        {
            let x = res[i];
            assert(idxs.take(i + 1).drop_last() =~= idxs.take(i as int));
            if contains_leaf_node(&parent.unmerged_leaves, x) {
            } else if x < self.0.len() {
                match &self.0[x] {
                    Some(n) => {
                        keys.push(copy_bytes(n.get_public_key()));
                        assert(keys_view(keys@) =~= keys_view(keys@.drop_last()).push(keys@.last()@));
                    },
                    None => {
                        proof {
                            assert(self@[x as int] is None);
                            assert(idxs.take(i + 1).last() == x as nat);
                            assert(keys_excluding(self@, idxs.take(i + 1), leaf_nodes(um)) is None);
                            lemma_keys_prefix_none(self@, idxs, i + 1, leaf_nodes(um));
                        }
                        return Err(NodeVecError::NotParent);
                    },
                }
            } else {
                proof {
                    assert(idxs.take(i + 1).last() == x as nat);
                    assert(keys_excluding(self@, idxs.take(i + 1), leaf_nodes(um)) is None);
                    lemma_keys_prefix_none(self@, idxs, i + 1, leaf_nodes(um));
                }
                return Err(NodeVecError::InvalidNodeIndex);
            }
            i = i + 1;
        }
        assert(idxs.take(i as int) =~= idxs);
        Ok(keys)
    }
}

} // verus!
