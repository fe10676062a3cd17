//! Looking up every value index stored under a hash.
//!
//! A built table maps a hash to the insertion index of its latest value; an
//! overflow buffer maps every insertion index to the index of the value
//! before it with the same hash, and 0 ends the chain. Insertion indices are
//! one past value indices.

use std::sync::Arc;
use vstd::prelude::*;

verus! {

/// A built table that answers, for a hash, the indices of every value
/// inserted with it.
pub trait Lookup {
    fn get(&self, hash: u64) -> Vec<usize>;
}

/// A shared table answers as the table it shares: its result is one that
/// the shared table's own `get` gives for the same hash.
impl<L: Lookup> Lookup for Arc<L> {
    fn get(&self, hash: u64) -> (r: Vec<usize>)
        ensures
            call_ensures(L::get, (&**self, hash), r),
    {
        (**self).get(hash)
    }
}

/// The `j`th insertion index of the chain that starts at `first`, or -1
/// once the chain has left the buffer.
pub open spec fn chain_at(overflow: Seq<usize>, first: usize, j: nat) -> int
    decreases j,
{
    if j == 0 {
        first as int
    } else {
        let previous = chain_at(overflow, first, (j - 1) as nat);
        if 0 <= previous < overflow.len() {
            overflow[previous] as int
        } else {
            -1
        }
    }
}

/// The chain from `first` holds `k` insertion indices, all inside the
/// buffer, and then ends with 0.
pub open spec fn chain_ends_at(overflow: Seq<usize>, first: usize, k: nat) -> bool {
    &&& k >= 1
    &&& chain_at(overflow, first, k) == 0
    &&& forall|j: nat| j < k ==> 0 < #[trigger] chain_at(overflow, first, j) < overflow.len()
}

/// The value indices of the chain that starts at the insertion index
/// `first`: `first - 1`, then one less than each index the overflow buffer
/// links to, up to the 0 that ends the chain. `None` when the chain starts
/// at 0, leaves the buffer, or has not ended after as many steps as the
/// buffer is long.
pub fn follow_overflow_chain(overflow: &[usize], first: usize) -> (r: Option<Vec<usize>>)
    ensures
        r is Some <==> exists|k: nat| k <= overflow@.len() && chain_ends_at(overflow@, first, k),
        r matches Some(v) ==> exists|k: nat| k <= overflow@.len() && chain_ends_at(overflow@, first, k)
            && v@ == Seq::new(k, |j: int| (chain_at(overflow@, first, j as nat) - 1) as usize),
{
    let mut output: Vec<usize> = Vec::new();
    let mut next = first;
    let mut steps: usize = 0;
    while next != 0
        invariant
            steps <= overflow@.len(),
            next as int == chain_at(overflow@, first, steps as nat),
            forall|j: nat| j < steps ==> 0 < #[trigger] chain_at(overflow@, first, j) < overflow@.len(),
            output@ == Seq::new(steps as nat, |j: int| (chain_at(overflow@, first, j as nat) - 1) as usize),
        decreases overflow@.len() - steps,
    {
        if next >= overflow.len() || steps >= overflow.len() {
            proof {
                assert forall|k: nat| k <= overflow@.len() implies !chain_ends_at(overflow@, first, k) by {
                    if chain_ends_at(overflow@, first, k) {
                        if k < steps {
                            assert(0 < chain_at(overflow@, first, k));
                        } else if k == steps {
                        } else {
                            assert(0 < chain_at(overflow@, first, steps as nat) < overflow@.len());
                        }
                    }
                }
            }
            return None;
        }
        output.push(next - 1);
        proof {
            assert(output@ =~= Seq::new((steps + 1) as nat, |j: int| (chain_at(overflow@, first, j as nat) - 1) as usize));
        }
        next = overflow[next];
        steps += 1;
    }
    if steps == 0 {
        proof {
            assert forall|k: nat| k <= overflow@.len() implies !chain_ends_at(overflow@, first, k) by {
                if chain_ends_at(overflow@, first, k) {
                    assert(0 < chain_at(overflow@, first, 0));
                }
            }
        }
        return None;
    }
    proof {
        assert(chain_ends_at(overflow@, first, steps as nat));
    }
    Some(output)
}

} // verus!
