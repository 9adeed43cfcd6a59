//! Order in which laid-out blocks are handed to the renderer.
use vstd::prelude::*;

verus! {

broadcast use vstd::seq_lib::group_seq_properties;

/// Whether block `a` is drawn before block `b`: lower z-order first, then lower block
/// index, then earlier position in the layout output.
pub open spec fn drawn_before(keys: Seq<(u32, usize)>, a: usize, b: usize) -> bool {
    let ka = keys[a as int];
    let kb = keys[b as int];
    ka.0 < kb.0 || (ka.0 == kb.0 && (ka.1 < kb.1 || (ka.1 == kb.1 && a < b)))
}

/// `order` lists each position below `n` exactly once.
pub open spec fn is_ordering(order: Seq<usize>, n: nat) -> bool {
    &&& order.len() == n
    &&& forall|i: int| 0 <= i < order.len() ==> #[trigger] order[i] < n
    &&& forall|i: int, j: int| 0 <= i < j < order.len() ==> #[trigger] order[i] != #[trigger] order[j]
}

/// `order` is sorted by `drawn_before`.
pub open spec fn sorted_for_drawing(keys: Seq<(u32, usize)>, order: Seq<usize>) -> bool {
    forall|i: int, j: int|
        0 <= i < j < order.len() ==> drawn_before(keys, #[trigger] order[i], #[trigger] order[j])
}

/// In `order`, z-orders never decrease; among blocks of one z-order, block indices never
/// decrease; and blocks with the same z-order and block index keep their positions' order.
pub open spec fn sorted_by_key(keys: Seq<(u32, usize)>, order: Seq<usize>) -> bool {
    forall|i: int, j: int|
        0 <= i < j < order.len() ==> {
            let a = keys[#[trigger] order[i] as int];
            let b = keys[#[trigger] order[j] as int];
            &&& a.0 <= b.0
            &&& a.0 == b.0 ==> a.1 <= b.1
            &&& a == b ==> order[i] < order[j]
        }
}

/// A drawing order is a sort of the positions by the (z-order, block index) pair that keeps
/// equal pairs in position order.
pub proof fn lemma_draw_order_sorts_by_key(keys: Seq<(u32, usize)>, order: Seq<usize>)
    requires
        is_ordering(order, keys.len()),
        sorted_for_drawing(keys, order),
    ensures
        sorted_by_key(keys, order),
{
    assert forall|i: int, j: int| 0 <= i < j < order.len() implies {
        let a = keys[#[trigger] order[i] as int];
        let b = keys[#[trigger] order[j] as int];
        &&& a.0 <= b.0
        &&& a.0 == b.0 ==> a.1 <= b.1
        &&& a == b ==> order[i] < order[j]
    } by {
        assert(drawn_before(keys, order[i], order[j]));
    }
}

fn drawn_before_exec(keys: &Vec<(u32, usize)>, a: usize, b: usize) -> (before: bool)
    requires
        a < keys.len(),
        b < keys.len(),
    ensures
        before == drawn_before(keys@, a, b),
{
    let ka = keys[a];
    let kb = keys[b];
    ka.0 < kb.0 || (ka.0 == kb.0 && (ka.1 < kb.1 || (ka.1 == kb.1 && a < b)))
}

/// The order in which to draw blocks whose (z-order, block index) keys are given: a stable
/// sort of the positions by key.
pub fn draw_order(keys: &Vec<(u32, usize)>) -> (order: Vec<usize>)
    ensures
        is_ordering(order@, keys@.len()),
        sorted_for_drawing(keys@, order@),
        sorted_by_key(keys@, order@),
{
    let mut order: Vec<usize> = Vec::new();
    let mut p: usize = 0;
    while p < keys.len()
        invariant
            p <= keys@.len(),
            is_ordering(order@, p as nat),
            sorted_for_drawing(keys@, order@),
        decreases keys.len() - p,
    {
        let mut q: usize = 0;
        while q < order.len() && !drawn_before_exec(keys, p, order[q])
            invariant
                p < keys@.len(),
                q <= order@.len(),
                is_ordering(order@, p as nat),
                forall|i: int| 0 <= i < q ==> !drawn_before(keys@, p, #[trigger] order@[i]),
            decreases order.len() - q,
        {
            q += 1;
        }
        let ghost before = order@;
        proof {
            assert forall|i: int| 0 <= i < q implies drawn_before(keys@, #[trigger] before[i], p) by {
                assert(before[i] < p);
            }
            if q < before.len() {
                assert forall|i: int| q <= i < before.len() implies drawn_before(keys@, p, #[trigger] before[i]) by {
                    if i > q {
                        assert(drawn_before(keys@, before[q as int], before[i]));
                    }
                }
            }
        }
        order.insert(q, p);
        assert forall|i: int, j: int| 0 <= i < j < order@.len() implies drawn_before(
            keys@,
            #[trigger] order@[i],
            #[trigger] order@[j],
        ) by {
            if j < q {
                assert(order@[i] == before[i] && order@[j] == before[j]);
            } else if j == q {
                assert(order@[i] == before[i]);
            } else if i == q {
                assert(order@[j] == before[j - 1]);
            } else if i < q {
                assert(order@[i] == before[i] && order@[j] == before[j - 1]);
                assert(drawn_before(keys@, before[i], p));
                assert(drawn_before(keys@, p, before[j - 1]));
            } else {
                assert(order@[i] == before[i - 1] && order@[j] == before[j - 1]);
            }
        }
        assert forall|i: int, j: int| 0 <= i < j < order@.len() implies #[trigger] order@[i]
            != #[trigger] order@[j] by {
            if j < q {
                assert(order@[i] == before[i] && order@[j] == before[j]);
            } else if j == q {
                assert(order@[i] == before[i]);
            } else if i == q {
                assert(order@[j] == before[j - 1]);
            } else if i < q {
                assert(order@[i] == before[i] && order@[j] == before[j - 1]);
            } else {
                assert(order@[i] == before[i - 1] && order@[j] == before[j - 1]);
            }
        }
        assert forall|i: int| 0 <= i < order@.len() implies #[trigger] order@[i] < p + 1 by {
            if i < q {
                assert(order@[i] == before[i]);
            } else if i > q {
                assert(order@[i] == before[i - 1]);
            }
        }
        p += 1;
    }
    proof {
        lemma_draw_order_sorts_by_key(keys@, order@);
    }
    order
}

} // verus!
