//! Ranking of scores, highest first and stable on ties.
use vstd::prelude::*;

use crate::graph::is_permutation;
use crate::score::Score;

verus! {

/// `order` lists the indices of `scores` from the highest value down, indices
/// of equal value in increasing order.
pub open spec fn ranked(scores: Seq<Score>, order: Seq<usize>) -> bool {
    &&& is_permutation(order, scores.len())
    &&& forall|a: int, b: int|
        0 <= a < b < order.len() ==> (#[trigger] scores[order[b] as int]).spec_le(#[trigger] scores[order[a] as int])
    &&& forall|a: int, b: int|
        0 <= a < b < order.len() && scores[order[a] as int].same_value(scores[order[b] as int])
            ==> #[trigger] order[a] < #[trigger] order[b]
}

/// Any two scores compare one way or the other.
pub proof fn lemma_le_total(a: Score, b: Score)
    ensures
        a.spec_le(b) || b.spec_le(a),
{
}

/// The order on scores is transitive.
pub proof fn lemma_le_trans(a: Score, b: Score, c: Score)
    requires
        a.spec_le(b),
        b.spec_le(c),
    ensures
        a.spec_le(c),
{
    let (ap, bp, cp) = (a.part as int, b.part as int, c.part as int);
    let (at, bt, ct) = (a.total(), b.total(), c.total());
    assert(ap * bt * ct <= bp * at * ct) by (nonlinear_arith)
        requires ap * bt <= bp * at, ct > 0;
    assert(bp * ct * at <= cp * bt * at) by (nonlinear_arith)
        requires bp * ct <= cp * bt, at > 0;
    assert(ap * ct <= cp * at) by (nonlinear_arith)
        requires ap * bt * ct <= bp * at * ct, bp * ct * at <= cp * bt * at, bt > 0;
}

/// Sorts the indices of `scores` by value, highest first; indices of equal
/// value keep their order (insertion sort).
pub fn rank(scores: &Vec<Score>) -> (r: Vec<usize>)
    ensures
        ranked(scores@, r@),
{
    let n = scores.len();
    let mut order: Vec<usize> = Vec::new();
    for i in 0..n
        invariant
            n == scores@.len(),
            order@.len() == i,
            order@.no_duplicates(),
            forall|k: int| 0 <= k < order@.len() ==> order@[k] < i,
            forall|x: usize| x < i ==> order@.contains(x),
            forall|a: int, b: int|
                0 <= a < b < order@.len() ==> (#[trigger] scores@[order@[b] as int]).spec_le(#[trigger] scores@[order@[a] as int]),
            forall|a: int, b: int|
                0 <= a < b < order@.len() && scores@[order@[a] as int].same_value(scores@[order@[b] as int])
                    ==> #[trigger] order@[a] < #[trigger] order@[b],
    {
        let s = scores[i];
        let mut pos: usize = 0;
        while pos < order.len() && s.at_most(&scores[order[pos]])
            invariant
                n == scores@.len(),
                i < n,
                s == scores@[i as int],
                pos <= order@.len(),
                forall|k: int| 0 <= k < order@.len() ==> order@[k] < i,
                forall|m: int| 0 <= m < pos ==> s.spec_le(#[trigger] scores@[order@[m] as int]),
            decreases order@.len() - pos,
        {
            pos = pos + 1;
        }
        let ghost old_order = order@;
        proof {
            assert forall|m: int| pos <= m < old_order.len() implies !s.spec_le(#[trigger] scores@[old_order[m] as int]) by {
                if s.spec_le(scores@[old_order[m] as int]) {
                    assert(scores@[old_order[m] as int].spec_le(scores@[old_order[pos as int] as int]));
                    lemma_le_trans(s, scores@[old_order[m] as int], scores@[old_order[pos as int] as int]);
                }
            }
        }
        order.insert(pos, i);
        proof {
            let o = order@;
            assert(forall|m: int| 0 <= m < pos ==> o[m] == old_order[m]);
            assert(o[pos as int] == i);
            assert(forall|m: int| pos < m < o.len() ==> o[m] == old_order[m - 1]);
            assert forall|a: int, b: int| 0 <= a < b < o.len() implies o[a] != o[b] by {
                if a != pos && b != pos {
                    let a2 = if a < pos { a } else { a - 1 };
                    let b2 = if b < pos { b } else { b - 1 };
                    assert(old_order[a2] != old_order[b2]);
                }
            }
            assert forall|x: usize| x < i + 1 implies o.contains(x) by {
                if x == i {
                    assert(o[pos as int] == x);
                } else {
                    assert(old_order.contains(x));
                    let k = choose|k: int| 0 <= k < old_order.len() && old_order[k] == x;
                    if k < pos {
                        assert(o[k] == x);
                    } else {
                        assert(o[k + 1] == x);
                    }
                }
            }
            assert forall|a: int, b: int| 0 <= a < b < o.len() implies
                (#[trigger] scores@[o[b] as int]).spec_le(#[trigger] scores@[o[a] as int]) by {
                if a == pos {
                    lemma_le_total(s, scores@[o[b] as int]);
                } else if b == pos {
                } else {
                    let a2 = if a < pos { a } else { a - 1 };
                    let b2 = if b < pos { b } else { b - 1 };
                    assert(scores@[old_order[b2] as int].spec_le(scores@[old_order[a2] as int]));
                }
            }
            assert forall|a: int, b: int|
                0 <= a < b < o.len() && scores@[o[a] as int].same_value(scores@[o[b] as int])
                    implies #[trigger] o[a] < #[trigger] o[b] by {
                if a == pos {
                } else if b == pos {
                } else {
                    let a2 = if a < pos { a } else { a - 1 };
                    let b2 = if b < pos { b } else { b - 1 };
                    assert(old_order[a2] < old_order[b2]);
                }
            }
        }
    }
    order
}

} // verus!
