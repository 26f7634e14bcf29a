use vstd::prelude::*;

verus! {

/// The decision at the heart of chain synchronisation: given the height
/// differences the peers reported, pick the first peer strictly ahead of us
/// by the most blocks; none qualifies when no difference is positive.
pub fn select_longest_peer(differences: &Vec<i32>) -> (r: Option<usize>)
    ensures
        match r {
            Some(i) => {
                &&& 0 <= i < differences@.len()
                &&& differences@[i as int] > 0
                &&& forall|j: int|
                    0 <= j < differences@.len() ==> #[trigger] differences@[j]
                        <= differences@[i as int]
                &&& forall|j: int|
                    0 <= j < i ==> #[trigger] differences@[j] < differences@[i as int]
            },
            None => forall|j: int|
                0 <= j < differences@.len() ==> #[trigger] differences@[j] <= 0,
        },
{
    let mut best: Option<usize> = None;
    let mut best_count: i32 = 0;
    let mut i: usize = 0;
    while i < differences.len()
        invariant
            i <= differences@.len(),
            best_count >= 0,
            match best {
                Some(b) => {
                    &&& 0 <= b < i
                    &&& differences@[b as int] == best_count
                    &&& best_count > 0
                    &&& forall|j: int| 0 <= j < i ==> #[trigger] differences@[j] <= best_count
                    &&& forall|j: int| 0 <= j < b ==> #[trigger] differences@[j] < best_count
                },
                None => best_count == 0 && forall|j: int|
                    0 <= j < i ==> #[trigger] differences@[j] <= 0,
            },
        decreases differences@.len() - i,
    {
        if differences[i] > best_count {
            best = Some(i);
            best_count = differences[i];
        }
        i = i + 1;
    }
    best
}

} // verus!
