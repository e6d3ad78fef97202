use vstd::prelude::*;

verus! {

/// Sprite `a` is drawn before sprite `b`: lower layer first, and within a
/// layer in the order the sprites were listed.
pub open spec fn drawn_before(z: Seq<i32>, a: int, b: int) -> bool {
    z[a] < z[b] || (z[a] == z[b] && a < b)
}

/// The order in which to draw sprites whose layers are `z`: every sprite
/// once, lower `z` first so higher layers end up on top, and sprites of the
/// same layer in their listed order (a stable sort by layer).
pub fn draw_order(z: &[i32]) -> (order: Vec<usize>)
    ensures
        order@.len() == z@.len(),
        forall|i: int| 0 <= i < order@.len() ==> #[trigger] order@[i] < z@.len(),
        forall|k: usize| k < z@.len() ==> #[trigger] order@.contains(k),
        forall|a: int, b: int|
            0 <= a < b < order@.len() ==> drawn_before(z@, order@[a] as int, order@[b] as int),
{
    let mut order: Vec<usize> = Vec::new();
    let mut i: usize = 0;
    while i < z.len()
        invariant
            i <= z@.len(),
            order@.len() == i,
            forall|m: int| 0 <= m < order@.len() ==> #[trigger] order@[m] < i,
            forall|k: usize| k < i ==> #[trigger] order@.contains(k),
            forall|a: int, b: int|
                0 <= a < b < order@.len() ==> drawn_before(z@, order@[a] as int, order@[b] as int),
        decreases z@.len() - i,
    {
        let zi = z[i];
        let mut pos: usize = 0;
        while pos < order.len() && z[order[pos]] <= zi
            invariant
                pos <= order@.len(),
                order@.len() == i,
                i < z@.len(),
                zi == z@[i as int],
                forall|m: int| 0 <= m < order@.len() ==> #[trigger] order@[m] < i,
                forall|m: int| 0 <= m < pos ==> z@[#[trigger] order@[m] as int] <= zi,
            decreases order@.len() - pos,
        {
            pos = pos + 1;
        }
        let ghost prev = order@;
        order.insert(pos, i);
        proof {
            assert forall|a: int, b: int|
                0 <= a < b < order@.len() implies drawn_before(z@, order@[a] as int, order@[b] as int) by {
                if b < pos {
                    assert(order@[a] == prev[a] && order@[b] == prev[b]);
                } else if b == pos {
                    assert(order@[a] == prev[a]);
                    assert(z@[prev[a] as int] <= zi);
                } else if a < pos {
                    assert(order@[a] == prev[a] && order@[b] == prev[b - 1]);
                } else if a == pos {
                    assert(order@[b] == prev[b - 1]);
                    if b - 1 == pos {
                        assert(z@[prev[pos as int] as int] > zi);
                    } else {
                        assert(drawn_before(z@, prev[pos as int] as int, prev[b - 1] as int));
                        assert(z@[prev[pos as int] as int] > zi);
                    }
                } else {
                    assert(order@[a] == prev[a - 1] && order@[b] == prev[b - 1]);
                }
            }
            assert forall|k: usize| k < i + 1 implies #[trigger] order@.contains(k) by {
                if k == i {
                    assert(order@[pos as int] == i);
                } else {
                    assert(prev.contains(k));
                    let m = choose|m: int| 0 <= m < prev.len() && prev[m] == k;
                    if m < pos {
                        assert(order@[m] == k);
                    } else {
                        assert(order@[m + 1] == k);
                    }
                }
            }
            assert forall|m: int| 0 <= m < order@.len() implies #[trigger] order@[m] < i + 1 by {
                if m < pos {
                    assert(order@[m] == prev[m]);
                } else if m > pos {
                    assert(order@[m] == prev[m - 1]);
                }
            }
        }
        i = i + 1;
    }
    order
}

} // verus!
