//! Small arithmetic helpers shared by the builders.

use vstd::prelude::*;

verus! {

/// Why a claim on a [`ClaimOnce`] failed.
#[derive(Debug)]
pub enum ClaimOnceError {
    Poisoned,
    AlreadyClaimed,
}

/// A value that can be taken out once.
pub struct ClaimOnce<T> {
    value: Option<T>,
}

impl<T> View for ClaimOnce<T> {
    type V = Option<T>;

    /// The value that is still there to claim.
    closed spec fn view(&self) -> Option<T> {
        self.value
    }
}

impl<T> ClaimOnce<T> {
    /// Holds `value` until it is claimed.
    pub fn new(value: T) -> (r: Self)
        ensures
            r@ == Some(value),
    {
        Self { value: Some(value) }
    }

    /// Takes the value out. The first claim gets it; every later claim gets
    /// [`ClaimOnceError::AlreadyClaimed`].
    pub fn claim(&mut self) -> (r: Result<T, ClaimOnceError>)
        ensures
            final(self)@ == None::<T>,
            match old(self)@ {
                Some(v) => r == Ok::<T, ClaimOnceError>(v),
                None => r == Err::<T, ClaimOnceError>(ClaimOnceError::AlreadyClaimed),
            },
    {
        match self.value.take() {
            Some(value) => Ok(value),
            None => Err(ClaimOnceError::AlreadyClaimed),
        }
    }
}

/// First index of the share of `total` items that worker `index` owns when
/// the items are dealt to `count` workers as evenly as possible.
pub open spec fn owned_start(total: int, count: int, index: int) -> int {
    index * (total / count) + if index < total % count { index } else { total % count }
}

/// One past the last index of the share that worker `index` owns.
pub open spec fn owned_end(total: int, count: int, index: int) -> int {
    owned_start(total, count, index) + total / count + if index < total % count { 1int } else { 0int }
}

/// Splits `0..total_size` into `actor_count` contiguous ranges whose sizes differ
/// by at most one; the first `total_size % actor_count` ranges hold one more item.
/// Returns the half-open range `(start, end)` owned by `actor_index`.
pub fn get_owned_range(total_size: usize, actor_count: usize, actor_index: usize) -> (r: (usize, usize))
    requires
        actor_count > 0,
        owned_end(total_size as int, actor_count as int, actor_index as int) <= usize::MAX,
    ensures
        r.0 == owned_start(total_size as int, actor_count as int, actor_index as int),
        r.1 == owned_end(total_size as int, actor_count as int, actor_index as int),
{
    let floor_values_per_actor = total_size / actor_count;
    let remainder = total_size % actor_count;
    let extra = if actor_index < remainder { actor_index } else { remainder };
    assert(actor_index * floor_values_per_actor <= owned_end(total_size as int, actor_count as int, actor_index as int));
    let start_index = actor_index * floor_values_per_actor + extra;
    let end_index = start_index + floor_values_per_actor + (if actor_index < remainder { 1 } else { 0 });
    (start_index, end_index)
}

/// The shares of consecutive workers meet, the first starts at 0 and the
/// last ends at `total`: together the shares split `0..total` without gap or
/// overlap.
pub proof fn lemma_owned_ranges_partition(total: int, count: int, index: int)
    requires
        total >= 0,
        count > 0,
        0 <= index < count,
    ensures
        owned_start(total, count, 0) == 0,
        owned_end(total, count, index) == owned_start(total, count, index + 1),
        owned_start(total, count, index) <= owned_end(total, count, index),
        owned_end(total, count, count - 1) == total,
{
    let q = total / count;
    let r = total % count;
    vstd::arithmetic::div_mod::lemma_fundamental_div_mod(total, count);
    assert(0 * q == 0) by (nonlinear_arith);
    assert((index + 1) * q == index * q + q) by (nonlinear_arith);
    assert(0 <= q) by (nonlinear_arith)
        requires total >= 0, count > 0, q == total / count;
    assert((count - 1) * q + q == count * q) by (nonlinear_arith);
}

} // verus!
