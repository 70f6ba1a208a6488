use vstd::prelude::*;

use crate::tree::{lemma_ref_shapes_index, ref_child_shape, ref_shape, ref_shapes, RefTree, TreeShape};
use crate::response::Response;

verus! {

broadcast use vstd::std_specs::vec::group_vec_axioms;

/// Worst-case depth of a strategy tree: the number of guesses needed, along
/// the longest branch, before every secret is identified. This is the rank
/// the search minimises; lower is better.
pub open spec fn depth(t: TreeShape) -> nat
    decreases t,
{
    1 + subdepth(t.children)
}

/// Largest depth among the subtrees of a child sequence; 0 when every child
/// is a leaf.
pub open spec fn subdepth(cs: Seq<(Response, Option<TreeShape>)>) -> nat
    decreases cs,
{
    if cs.len() == 0 {
        0
    } else {
        let rest = subdepth(cs.drop_last());
        match cs.last().1 {
            Option::None => rest,
            Option::Some(sub) => if depth(sub) > rest {
                depth(sub)
            } else {
                rest
            },
        }
    }
}

/// A child sequence is exactly as deep as its deepest subtree.
pub proof fn lemma_subdepth_ge(cs: Seq<(Response, Option<TreeShape>)>, i: int)
    requires
        0 <= i < cs.len(),
        cs[i].1 is Some,
    ensures
        subdepth(cs) >= depth(cs[i].1->Some_0),
    decreases cs,
{
    if i < cs.len() - 1 {
        assert(cs.drop_last()[i] == cs[i]);
        lemma_subdepth_ge(cs.drop_last(), i);
    }
}

/// A bound met by every subtree bounds the whole child sequence.
pub proof fn lemma_subdepth_le(cs: Seq<(Response, Option<TreeShape>)>, d: nat)
    requires
        forall|i: int|
            0 <= i < cs.len() && (#[trigger] cs[i]).1 is Some ==> depth(cs[i].1->Some_0) <= d,
    ensures
        subdepth(cs) <= d,
    decreases cs,
{
    if cs.len() > 0 {
        assert(forall|i: int| 0 <= i < cs.len() - 1 ==> #[trigger] cs.drop_last()[i] == cs[i]);
        lemma_subdepth_le(cs.drop_last(), d);
    }
}

/// A child sequence has depth zero exactly when every child is a leaf.
pub proof fn lemma_subdepth_zero(cs: Seq<(Response, Option<TreeShape>)>)
    ensures
        subdepth(cs) == 0 <==> (forall|i: int| 0 <= i < cs.len() ==> (#[trigger] cs[i]).1 is None),
    decreases cs,
{
    if cs.len() > 0 {
        lemma_subdepth_zero(cs.drop_last());
        assert(forall|i: int| 0 <= i < cs.len() - 1 ==> #[trigger] cs.drop_last()[i] == cs[i]);
        if subdepth(cs) == 0 {
            assert forall|i: int| 0 <= i < cs.len() implies (#[trigger] cs[i]).1 is None by {
                if i < cs.len() - 1 {
                    assert(cs.drop_last()[i] == cs[i]);
                } else {
                    assert(cs[i] == cs.last());
                    match cs.last().1 {
                        Option::None => {},
                        Option::Some(sub) => {
                            assert(depth(sub) >= 1);
                        },
                    }
                }
            }
        }
    }
}

/// Every tree needs at least one guess, and exactly one precisely when every
/// feedback identifies the secret at once: all children are leaves.
pub proof fn lemma_depth_minimum(t: TreeShape)
    ensures
        depth(t) >= 1,
        depth(t) == 1 <==> (forall|i: int|
            0 <= i < t.children.len() ==> (#[trigger] t.children[i]).1 is None),
{
    lemma_subdepth_zero(t.children);
}

/// Worst-case depth of a tree, computed bottom-up: a node with only leaf
/// children has depth 1, any other is one deeper than its deepest subtree.
pub fn by_depth(tree: &RefTree) -> (d: usize)
    requires
        depth(ref_shape(tree)) <= usize::MAX,
    ensures
        d as nat == depth(ref_shape(tree)),
    decreases tree,
{
    proof {
        lemma_ref_shapes_index(tree.children@);
    }
    let ghost shaped = ref_shapes(tree.children@);
    let mut d: usize = 1;
    let n = tree.children.len();
    for ci in 0..n
        invariant
            n == tree.children@.len(),
            depth(ref_shape(tree)) <= usize::MAX,
            shaped == ref_shapes(tree.children@),
            shaped.len() == n,
            forall|i: int|
                0 <= i < n ==> shaped[i] == ref_child_shape(#[trigger] tree.children@[i]),
            d as nat == 1 + subdepth(shaped.take(ci as int)),
    {
        proof {
            assert(shaped.take(ci + 1).drop_last() =~= shaped.take(ci as int));
            assert(shaped.take(ci + 1).last() == shaped[ci as int]);
        }
        match &tree.children[ci].1 {
            Option::None => {},
            Option::Some(sub) => {
                proof {
                    lemma_subdepth_ge(shaped, ci as int);
                }
                let sd = by_depth(sub);
                if sd >= d {
                    d = sd + 1;
                }
            },
        }
    }
    proof {
        assert(shaped.take(n as int) =~= shaped);
    }
    d
}

} // verus!
