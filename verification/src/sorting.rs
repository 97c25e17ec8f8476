use vstd::prelude::*;

verus! {

/// `order` lists the places `0..keys.len()`, each once, by rising key, and
/// places with equal keys in their own order.
pub open spec fn is_stable_order(order: Seq<usize>, keys: Seq<i64>) -> bool {
    &&& order.len() == keys.len()
    &&& forall|a: int| 0 <= a < order.len() ==> (#[trigger] order[a]) < keys.len()
    &&& forall|a: int, b: int| 0 <= a < b < order.len() ==> (#[trigger] order[a]) != (#[trigger] order[b])
    &&& forall|a: int, b: int|
        0 <= a < b < order.len() ==> keys[(#[trigger] order[a]) as int] <= keys[(#[trigger] order[b]) as int]
    &&& forall|a: int, b: int|
        0 <= a < b < order.len() && keys[(#[trigger] order[a]) as int] == keys[(#[trigger] order[b]) as int]
            ==> order[a] < order[b]
}

/// The places of `keys` by rising key; places with equal keys stay in their
/// order.
pub fn stable_order(keys: &Vec<i64>) -> (order: Vec<usize>)
    ensures
        is_stable_order(order@, keys@),
{
    let mut order: Vec<usize> = Vec::new();
    let mut i: usize = 0;
    while i < keys.len()
        invariant
            i <= keys@.len(),
            order@.len() == i,
            forall|a: int| 0 <= a < order@.len() ==> (#[trigger] order@[a]) < i,
            forall|a: int, b: int| 0 <= a < b < order@.len() ==> (#[trigger] order@[a]) != (#[trigger] order@[b]),
            forall|a: int, b: int|
                0 <= a < b < order@.len() ==> keys@[(#[trigger] order@[a]) as int] <= keys@[(
                #[trigger] order@[b]) as int],
            forall|a: int, b: int|
                0 <= a < b < order@.len() && keys@[(#[trigger] order@[a]) as int] == keys@[(
                #[trigger] order@[b]) as int] ==> order@[a] < order@[b],
        decreases keys@.len() - i,
    {
        let mut j: usize = order.len();
        while j > 0 && keys[order[j - 1]] > keys[i]
            invariant
                j <= order@.len(),
                order@.len() == i,
                i < keys@.len(),
                forall|a: int| 0 <= a < order@.len() ==> (#[trigger] order@[a]) < i,
                forall|a: int| j <= a < order@.len() ==> keys@[(#[trigger] order@[a]) as int] > keys@[i as int],
            decreases j,
        {
            j -= 1;
        }
        let ghost before = order@;
        order.insert(j, i);
        proof {
            let after = order@;
            assert forall|a: int| 0 <= a < after.len() implies (#[trigger] after[a]) < i + 1 by {
                if a < j {
                    assert(after[a] == before[a]);
                } else if a > j {
                    assert(after[a] == before[a - 1]);
                }
            }
            assert forall|a: int, b: int| 0 <= a < b < after.len() implies {
                &&& (#[trigger] after[a]) != (#[trigger] after[b])
                &&& keys@[after[a] as int] <= keys@[after[b] as int]
                &&& keys@[after[a] as int] == keys@[after[b] as int] ==> after[a] < after[b]
            } by {
                let x = if a < j { a } else { a - 1 };
                let y = if b < j { b } else { b - 1 };
                if a != j {
                    assert(after[a] == before[x]);
                }
                if b != j {
                    assert(after[b] == before[y]);
                }
                if a != j && b != j {
                    assert(x < y);
                }
                if b == j && j > 0 {
                    assert(before[j - 1] == after[j - 1]);
                    if a < j - 1 {
                        assert(keys@[before[a] as int] <= keys@[before[j - 1] as int]);
                    }
                }
            }
        }
        i += 1;
    }
    order
}

} // verus!
