use vstd::prelude::*;

verus! {

/// Whether two array shapes can be combined element by element: aligned at
/// their last axes, the lengths of each pair of axes are equal or one of them
/// is one. Axes that the longer shape has in front of the shorter one pair
/// with nothing.
pub open spec fn compatible(lhs: Seq<usize>, rhs: Seq<usize>) -> bool {
    forall|k: int|
        0 <= k < lhs.len() && k < rhs.len() ==> {
            let a = #[trigger] lhs[lhs.len() - 1 - k];
            let b = rhs[rhs.len() - 1 - k];
            a == b || a == 1 || b == 1
        }
}

/// Decides [`compatible`].
pub fn broadcastable(lhs: &[usize], rhs: &[usize]) -> (ok: bool)
    ensures
        ok == compatible(lhs@, rhs@),
{
    let shared = if lhs.len() < rhs.len() {
        lhs.len()
    } else {
        rhs.len()
    };
    let mut k: usize = 0;
    while k < shared
        invariant
            k <= shared,
            shared <= lhs@.len(),
            shared <= rhs@.len(),
            shared == lhs@.len() || shared == rhs@.len(),
            forall|j: int|
                0 <= j < k ==> {
                    let a = #[trigger] lhs@[lhs@.len() - 1 - j];
                    let b = rhs@[rhs@.len() - 1 - j];
                    a == b || a == 1 || b == 1
                },
        decreases shared - k,
    {
        let a = lhs[lhs.len() - 1 - k];
        let b = rhs[rhs.len() - 1 - k];
        if a != b && a != 1 && b != 1 {
            proof {
                assert(lhs@[lhs@.len() - 1 - k] == a);
            }
            return false;
        }
        k = k + 1;
    }
    true
}

} // verus!
