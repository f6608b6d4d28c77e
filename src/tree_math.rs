//! Index arithmetic of a left-balanced binary tree stored in an array: leaves
//! at even indices, parents at odd ones, a node's level being the number of
//! trailing one bits of its index.

use vstd::prelude::*;

verus! {

pub open spec fn two_pow(k: nat) -> nat
    decreases k,
{
    if k == 0 {
        1
    } else {
        2 * two_pow((k - 1) as nat)
    }
}

/// The height of node `x` above the leaves.
pub open spec fn level(x: nat) -> nat
    decreases x,
{
    if x % 2 == 0 {
        0
    } else {
        1 + level(x / 2)
    }
}

/// The number of array slots of a tree with `n` leaves.
pub open spec fn width(n: nat) -> nat {
    if n == 0 {
        0
    } else {
        (2 * n - 1) as nat
    }
}

/// The left child of a parent.
pub open spec fn left_spec(x: nat) -> nat {
    (x - two_pow((level(x) - 1) as nat)) as nat
}

/// The right child of a parent in a complete tree.
pub open spec fn right_step(x: nat) -> nat {
    x + two_pow((level(x) - 1) as nat)
}

pub proof fn lemma_two_pow_pos(k: nat)
    ensures
        two_pow(k) >= 1,
    decreases k,
{
    if k > 0 {
        lemma_two_pow_pos((k - 1) as nat);
    }
}

pub proof fn lemma_two_pow_above(k: nat)
    ensures
        two_pow(k) > k,
        two_pow(k + 1) == 2 * two_pow(k),
    decreases k,
{
    if k > 0 {
        lemma_two_pow_above((k - 1) as nat);
    }
}

/// An index of the form `(2b + 1) * 2^j - 1` has level `j`.
pub proof fn lemma_level_of_form(b: nat, j: nat)
    ensures
        level(((2 * b + 1) * two_pow(j) - 1) as nat) == j,
    decreases j,
{
    lemma_two_pow_pos(j);
    if j > 0 {
        let c = (2 * b + 1) * two_pow((j - 1) as nat);
        assert((2 * b + 1) * two_pow(j) == 2 * c) by (nonlinear_arith)
            requires
                two_pow(j) == 2 * two_pow((j - 1) as nat),
                c == (2 * b + 1) * two_pow((j - 1) as nat),
        ;
        lemma_two_pow_pos((j - 1) as nat);
        assert(c >= 1) by (nonlinear_arith)
            requires
                c == (2 * b + 1) * two_pow((j - 1) as nat),
                two_pow((j - 1) as nat) >= 1,
        ;
        let v = (2 * c - 1) as nat;
        assert(((2 * b + 1) * two_pow(j) - 1) as nat == v);
        assert(v % 2 == 1);
        assert(v / 2 == (c - 1) as nat);
        assert(level(v) == 1 + level(v / 2));
        lemma_level_of_form(b, (j - 1) as nat);
    } else {
        assert(two_pow(0) == 1);
        assert((2 * b + 1) * two_pow(j) == 2 * b + 1);
        assert(((2 * b + 1) * two_pow(j) - 1) as nat == 2 * b);
    }
}

/// Every index is `(2a + 1) * 2^level - 1` for some `a`.
pub proof fn lemma_decompose(x: nat) -> (a: nat)
    ensures
        x + 1 == (2 * a + 1) * two_pow(level(x)),
    decreases x,
{
    if x % 2 == 0 {
        assert(two_pow(0) == 1);
        assert(level(x) == 0);
        x / 2
    } else {
        let a = lemma_decompose(x / 2);
        let k = level(x / 2);
        assert(level(x) == k + 1);
        assert(x + 1 == 2 * (x / 2 + 1));
        lemma_two_pow_above(k);
        assert((2 * a + 1) * two_pow(k + 1) == 2 * ((2 * a + 1) * two_pow(k))) by (nonlinear_arith)
            requires
                two_pow(k + 1) == 2 * two_pow(k),
        ;
        a
    }
}

/// Both children of a parent sit one level lower, and the half-width step
/// stays within the index.
pub proof fn lemma_children(x: nat)
    requires
        level(x) > 0,
    ensures
        two_pow((level(x) - 1) as nat) <= x,
        level(left_spec(x)) == level(x) - 1,
        level(right_step(x)) == level(x) - 1,
{
    let k = level(x);
    let h = two_pow((k - 1) as nat);
    let a = lemma_decompose(x);
    lemma_two_pow_pos((k - 1) as nat);
    assert(two_pow(k) == 2 * h);
    assert(x + 1 == (4 * a + 2) * h) by (nonlinear_arith)
        requires
            x + 1 == (2 * a + 1) * two_pow(k),
            two_pow(k) == 2 * h,
    ;
    assert(h <= x) by (nonlinear_arith)
        requires
            x + 1 == (4 * a + 2) * h,
            h >= 1,
    ;
    assert((x - h) as nat == ((2 * (2 * a) + 1) * h - 1) as nat) by (nonlinear_arith)
        requires
            x + 1 == (4 * a + 2) * h,
            h <= x,
    ;
    assert(x + h == ((2 * (2 * a + 1) + 1) * h - 1) as nat) by (nonlinear_arith)
        requires
            x + 1 == (4 * a + 2) * h,
    ;
    lemma_level_of_form(2 * a, (k - 1) as nat);
    lemma_level_of_form(2 * a + 1, (k - 1) as nat);
}

/// From `r`, step to left children while outside the first `w` slots.
pub open spec fn descend_left(r: nat, w: nat) -> nat
    decreases level(r),
    via descend_left_decreases
{
    if r < w || level(r) == 0 {
        r
    } else {
        descend_left(left_spec(r), w)
    }
}

#[via_fn]
proof fn descend_left_decreases(r: nat, w: nat) {
    if !(r < w || level(r) == 0) {
        lemma_children(r);
    }
}

pub proof fn lemma_descend_left_level(r: nat, w: nat)
    ensures
        level(descend_left(r, w)) <= level(r),
    decreases level(r),
{
    if !(r < w || level(r) == 0) {
        lemma_children(r);
        lemma_descend_left_level(left_spec(r), w);
    }
}

/// The right child of a parent in a tree with `n` leaves.
pub open spec fn right_spec(x: nat, n: nat) -> nat {
    descend_left(right_step(x), width(n))
}

/// A failure of the index arithmetic.
#[derive(Clone, Copy, Debug, PartialEq, Eq, Structural)]
pub enum TreeMathError {
    /// A leaf has no children.
    NoChildren,
    /// The index lies outside the tree.
    OutOfRange,
}

/// The level of `x` together with `2^level(x)`.
fn level_pow(x: usize) -> (r: (usize, usize))
    requires
        x < usize::MAX,
    ensures
        r.0 == level(x as nat),
        r.1 == two_pow(level(x as nat)),
{
    let mut v: usize = x;
    let mut k: usize = 0;
    let mut p: usize = 1;
    while v % 2 == 1
        invariant
            x < usize::MAX,
            level(x as nat) == k + level(v as nat),
            p == two_pow(k as nat),
            x + 1 == (v + 1) * p,
            k < p,
        decreases v,
    {
        let v2 = v / 2;
        assert(x + 1 == (v2 + 1) * (2 * p)) by (nonlinear_arith)
            requires
                x + 1 == (v + 1) * p,
                v == 2 * v2 + 1,
        ;
        assert(2 * p <= x + 1) by (nonlinear_arith)
            requires
                x + 1 == (v2 + 1) * (2 * p),
                p >= 0,
        ;
        proof {
            lemma_two_pow_above(k as nat);
        }
        v = v2;
        p = 2 * p;
        k = k + 1;
    }
    (k, p)
}

/// The left child of `x`, when `x` is a parent.
pub open spec fn left_of(x: nat) -> Option<nat> {
    if level(x) > 0 && x < usize::MAX {
        Some(left_spec(x))
    } else {
        None
    }
}

/// The right child of `x` in a tree with `n` leaves, when it lies in the tree.
pub open spec fn right_of(x: nat, n: nat) -> Option<nat> {
    if x < width(n) && level(x) > 0 && right_step(x) < usize::MAX && right_spec(x, n) < width(n) {
        Some(right_spec(x, n))
    } else {
        None
    }
}

/// The largest power of two, from `p` upward by doubling, that is at most `w`.
pub open spec fn top_pow(w: nat, p: nat) -> nat
    decreases w - p,
{
    if p == 0 || 2 * p > w {
        p
    } else {
        top_pow(w, 2 * p)
    }
}

/// The root of a tree with `n` leaves.
pub open spec fn root_spec(n: nat) -> nat {
    (top_pow(width(n), 1) - 1) as nat
}

/// The pairs (node, child off the path) from `node` down to `x`.
pub open spec fn path_from(node: nat, x: nat, n: nat) -> Option<Seq<(nat, nat)>>
    decreases level(node),
    via path_from_decreases
{
    if node == x {
        Some(Seq::empty())
    } else if level(node) == 0 {
        None
    } else {
        match (left_of(node), right_of(node, n)) {
            (Some(l), Some(r)) => {
                let next = if x < node { l } else { r };
                let sib = if x < node { r } else { l };
                match path_from(next, x, n) {
                    Some(rest) => Some(seq![(node, sib)] + rest),
                    None => None,
                }
            },
            _ => None,
        }
    }
}

#[via_fn]
proof fn path_from_decreases(node: nat, x: nat, n: nat) {
    if node != x && level(node) > 0 {
        lemma_children(node);
        lemma_descend_left_level(right_step(node), width(n));
    }
}

/// The direct path of leaf `leaf` from the root down, each parent paired with
/// its child on the copath.
pub open spec fn direct_path_spec(leaf: nat, n: nat) -> Option<Seq<(nat, nat)>> {
    if 2 * leaf < width(n) {
        path_from(root_spec(n), 2 * leaf, n)
    } else {
        None
    }
}

pub open spec fn pairs_view(v: Seq<(usize, usize)>) -> Seq<(nat, nat)> {
    v.map_values(|p: (usize, usize)| (p.0 as nat, p.1 as nat))
}

/// The left child of parent `x`.
pub fn left(x: usize) -> (r: Result<usize, TreeMathError>)
    ensures
        r is Ok <==> left_of(x as nat) is Some,
        r matches Ok(v) ==> left_of(x as nat) == Some(v as nat),
{
    if x == usize::MAX {
        return Err(TreeMathError::OutOfRange);
    }
    let (k, p) = level_pow(x);
    if k == 0 {
        return Err(TreeMathError::NoChildren);
    }
    proof {
        lemma_children(x as nat);
        lemma_two_pow_above((k - 1) as nat);
    }
    Ok(x - p / 2)
}

/// The right child of parent `x` in a tree with `leaf_count` leaves.
pub fn right(x: usize, leaf_count: usize) -> (r: Result<usize, TreeMathError>)
    requires
        leaf_count <= usize::MAX / 2,
    ensures
        r is Ok <==> right_of(x as nat, leaf_count as nat) is Some,
        r matches Ok(v) ==> right_of(x as nat, leaf_count as nat) == Some(v as nat),
{
    if leaf_count == 0 {
        return Err(TreeMathError::OutOfRange);
    }
    let w: usize = 2 * leaf_count - 1;
    if x >= w {
        return Err(TreeMathError::OutOfRange);
    }
    let (k, p) = level_pow(x);
    if k == 0 {
        return Err(TreeMathError::NoChildren);
    }
    proof {
        lemma_children(x as nat);
        lemma_two_pow_above((k - 1) as nat);
    }
    let h = p / 2;
    if x >= usize::MAX - h {
        return Err(TreeMathError::OutOfRange);
    }
    let mut c: usize = x + h;
    assert(c == right_step(x as nat));
    while c >= w
        invariant
            c < usize::MAX,
            w as nat == width(leaf_count as nat),
            descend_left(c as nat, w as nat) == right_spec(x as nat, leaf_count as nat),
        decreases level(c as nat),
    {
        let (kc, pc) = level_pow(c);
        if kc == 0 {
            return Err(TreeMathError::OutOfRange);
        }
        proof {
            lemma_children(c as nat);
            lemma_two_pow_above((kc - 1) as nat);
        }
        c = c - pc / 2;
    }
    Ok(c)
}

/// The root of a tree with `leaf_count` leaves.
pub fn root(leaf_count: usize) -> (r: usize)
    requires
        1 <= leaf_count <= usize::MAX / 2,
    ensures
        r == root_spec(leaf_count as nat),
{
    let w: usize = 2 * leaf_count - 1;
    let mut p: usize = 1;
    while p <= w / 2
        invariant
            1 <= p <= w,
            w as nat == width(leaf_count as nat),
            top_pow(w as nat, p as nat) == top_pow(w as nat, 1),
        decreases w - p,
    {
        p = 2 * p;
    }
    p - 1
}

/// The direct path of leaf `leaf` from the root down, each parent paired with
/// its copath child.
pub fn direct_path(leaf: usize, leaf_count: usize) -> (r: Result<Vec<(usize, usize)>, TreeMathError>)
    requires
        leaf_count <= usize::MAX / 2,
    ensures
        r is Ok <==> direct_path_spec(leaf as nat, leaf_count as nat) is Some,
        r matches Ok(v) ==> direct_path_spec(leaf as nat, leaf_count as nat) == Some(pairs_view(v@)),
{
    if leaf >= leaf_count {
        return Err(TreeMathError::OutOfRange);
    }
    let x: usize = 2 * leaf;
    let mut node = root(leaf_count);
    let mut out: Vec<(usize, usize)> = Vec::new();
    while node != x
        invariant
            x as nat == 2 * leaf,
            leaf_count <= usize::MAX / 2,
            direct_path_spec(leaf as nat, leaf_count as nat) == match path_from(node as nat, x as nat, leaf_count as nat) {
                Some(rest) => Some(pairs_view(out@) + rest),
                None => None::<Seq<(nat, nat)>>,
            },
        decreases level(node as nat),
    {
        let l = left(node);
        let rr = right(node, leaf_count);
        let (l, rr) = match (l, rr) {
            (Ok(l), Ok(rr)) => (l, rr),
            _ => {
                return Err(TreeMathError::OutOfRange);
            },
        };
        proof {
            lemma_children(node as nat);
            lemma_descend_left_level(right_step(node as nat), width(leaf_count as nat));
        }
        let ghost old_out = out@;
        if x < node {
            out.push((node, rr));
            node = l;
        } else {
            out.push((node, l));
            node = rr;
        }
        proof {
            assert(pairs_view(out@) =~= pairs_view(old_out).push((out@.last().0 as nat, out@.last().1 as nat)));
            match path_from(node as nat, x as nat, leaf_count as nat) {
                Some(rest) => {
                    assert(pairs_view(out@) + rest =~= pairs_view(old_out) + (seq![(out@.last().0 as nat, out@.last().1 as nat)] + rest));
                },
                None => {},
            }
        }
    }
    proof {
        assert(pairs_view(out@) + Seq::<(nat, nat)>::empty() =~= pairs_view(out@));
    }
    Ok(out)
}

proof fn lemma_top_pow_even(w: nat, p: nat)
    requires
        p >= 2,
        p % 2 == 0,
    ensures
        top_pow(w, p) % 2 == 0,
        top_pow(w, p) >= p,
    decreases w - p,
{
    if 2 * p <= w {
        lemma_top_pow_even(w, 2 * p);
    }
}

/// In a tree of two or more leaves the root is a parent, so the direct path of
/// any leaf has at least one pair.
pub proof fn lemma_direct_path_nonempty(leaf: nat, n: nat)
    requires
        n > 1,
        direct_path_spec(leaf, n) is Some,
    ensures
        direct_path_spec(leaf, n)->Some_0.len() > 0,
{
    let w = width(n);
    assert(top_pow(w, 1) == top_pow(w, 2));
    lemma_top_pow_even(w, 2);
    assert(root_spec(n) % 2 == 1);
    assert(root_spec(n) != 2 * leaf);
}

} // verus!
