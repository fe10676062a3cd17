//! Generated inputs: batches of hashes for a number of threads.

use vstd::prelude::*;

verus! {

/// `x` is a value that a generator of type `F` can give.
pub open spec fn generated<F: FnMut() -> u64>(x: u64) -> bool {
    exists|g: F| #[trigger] call_ensures(g, (), x)
}

/// The batches of one thread, one after the other.
pub open spec fn flatten_batches(batches: Seq<Vec<u64>>) -> Seq<u64>
    decreases batches.len(),
{
    if batches.len() == 0 {
        Seq::empty()
    } else {
        flatten_batches(batches.drop_last()) + batches.last()@
    }
}

/// The batches of every thread, thread after thread.
pub open spec fn flatten_input(threads: Seq<Vec<Vec<u64>>>) -> Seq<u64>
    decreases threads.len(),
{
    if threads.len() == 0 {
        Seq::empty()
    } else {
        flatten_input(threads.drop_last()) + flatten_batches(threads.last()@)
    }
}

/// Batches of `batch_size` values each hold `batch_size` values apiece.
proof fn lemma_flatten_batches_len(batches: Seq<Vec<u64>>, batch_size: int)
    requires
        forall|b: int| 0 <= b < batches.len() ==> (#[trigger] batches[b])@.len() == batch_size,
    ensures
        flatten_batches(batches).len() == batches.len() * batch_size,
    decreases batches.len(),
{
    if batches.len() > 0 {
        let n = batches.len() as int;
        lemma_flatten_batches_len(batches.drop_last(), batch_size);
        assert(batches.last() == batches[n - 1]);
        assert((n - 1) * batch_size + batch_size == n * batch_size) by (nonlinear_arith);
    }
}

/// The input of `threads` threads of `batches` batches of `batch_size`
/// values holds that many values.
proof fn lemma_flatten_input_len(threads: Seq<Vec<Vec<u64>>>, batches: int, batch_size: int)
    requires
        forall|t: int| 0 <= t < threads.len() ==> (#[trigger] threads[t])@.len() == batches,
        forall|t: int, b: int| 0 <= t < threads.len() && 0 <= b < batches ==> (#[trigger] threads[t]@[b])@.len() == batch_size,
    ensures
        flatten_input(threads).len() == threads.len() * batches * batch_size,
    decreases threads.len(),
{
    if threads.len() > 0 {
        let n = threads.len() as int;
        lemma_flatten_input_len(threads.drop_last(), batches, batch_size);
        let last = threads[n - 1];
        assert(threads.last() == last);
        assert forall|b: int| 0 <= b < last@.len() implies (#[trigger] last@[b])@.len() == batch_size by {
            assert(threads[n - 1]@[b]@.len() == batch_size);
        }
        lemma_flatten_batches_len(last@, batch_size);
        assert((n - 1) * batches * batch_size + batches * batch_size == n * batches * batch_size) by (nonlinear_arith);
    } else {
        assert(0 * batches * batch_size == 0) by (nonlinear_arith);
    }
}

/// `values` are what successive calls of a generator gave, in order: the
/// first call on `generator`, each later one on the state the generator was
/// left in.
pub open spec fn successive_calls<F: FnMut() -> u64>(generator: F, values: Seq<u64>) -> bool {
    exists|states: Seq<F>| #![trigger states.len()]
        states.len() == values.len()
        && (values.len() > 0 ==> states[0] == generator)
        && forall|k: int| 0 <= k < values.len() ==> call_ensures(#[trigger] states[k], (), values[k])
}

/// `batch_size` hashes, each the next one that `generator` gives.
pub fn make_vec<F: FnMut() -> u64>(batch_size: usize, mut generator: F) -> (r: Vec<u64>)
    requires
        forall|g: F| call_requires(g, ()),
    ensures
        r@.len() == batch_size,
        forall|j: int| 0 <= j < batch_size ==> #[trigger] generated::<F>(r@[j]),
        successive_calls(generator, r@),
{
    let ghost first = generator;
    let ghost mut states: Seq<F> = Seq::empty();
    let mut v: Vec<u64> = Vec::new();
    let mut i: usize = 0;
    while i < batch_size
        invariant
            i <= batch_size,
            v@.len() == i,
            states.len() == i,
            i > 0 ==> states[0] == first,
            i == 0 ==> generator == first,
            forall|k: int| 0 <= k < i ==> call_ensures(#[trigger] states[k], (), v@[k]),
            forall|g: F| call_requires(g, ()),
            forall|j: int| 0 <= j < i ==> #[trigger] generated::<F>(v@[j]),
        decreases batch_size - i,
    {
        let ghost before = generator;
        let x = generator();
        assert(call_ensures(before, (), x));
        proof {
            states = states.push(before);
        }
        v.push(x);
        i += 1;
    }
    assert(states.len() == v@.len());
    v
}

/// For each of `parallelism` threads, `batches` batches of `batch_size`
/// hashes, filled in that order from `generator`.
pub fn make_input<F: FnMut() -> u64>(parallelism: usize, batches: usize, batch_size: usize, mut generator: F) -> (r: Vec<Vec<Vec<u64>>>)
    requires
        forall|g: F| call_requires(g, ()),
    ensures
        r@.len() == parallelism,
        forall|t: int| 0 <= t < parallelism ==> (#[trigger] r@[t])@.len() == batches,
        forall|t: int, b: int| 0 <= t < parallelism && 0 <= b < batches ==> (#[trigger] r@[t]@[b])@.len() == batch_size,
        forall|t: int, b: int, j: int| 0 <= t < parallelism && 0 <= b < batches && 0 <= j < batch_size
            ==> #[trigger] generated::<F>(r@[t]@[b]@[j]),
        successive_calls(generator, flatten_input(r@)),
        flatten_input(r@).len() == parallelism * batches * batch_size,
{
    let ghost first = generator;
    let ghost mut states: Seq<F> = Seq::empty();
    let ghost mut outs: Seq<u64> = Seq::empty();
    let mut threads: Vec<Vec<Vec<u64>>> = Vec::new();
    let mut t: usize = 0;
    while t < parallelism
        invariant
            t <= parallelism,
            threads@.len() == t,
            outs == flatten_input(threads@),
            states.len() == outs.len(),
            outs.len() > 0 ==> states[0] == first,
            outs.len() == 0 ==> generator == first,
            forall|k: int| 0 <= k < outs.len() ==> call_ensures(#[trigger] states[k], (), outs[k]),
            forall|g: F| call_requires(g, ()),
            forall|t2: int| 0 <= t2 < t ==> (#[trigger] threads@[t2])@.len() == batches,
            forall|t2: int, b: int| 0 <= t2 < t && 0 <= b < batches ==> (#[trigger] threads@[t2]@[b])@.len() == batch_size,
            forall|t2: int, b: int, j: int| 0 <= t2 < t && 0 <= b < batches && 0 <= j < batch_size
                ==> #[trigger] generated::<F>(threads@[t2]@[b]@[j]),
        decreases parallelism - t,
    {
        let mut thread_batches: Vec<Vec<u64>> = Vec::new();
        let mut b: usize = 0;
        while b < batches
            invariant
                b <= batches,
                thread_batches@.len() == b,
                outs == flatten_input(threads@) + flatten_batches(thread_batches@),
                states.len() == outs.len(),
                outs.len() > 0 ==> states[0] == first,
                outs.len() == 0 ==> generator == first,
                forall|k: int| 0 <= k < outs.len() ==> call_ensures(#[trigger] states[k], (), outs[k]),
                forall|g: F| call_requires(g, ()),
                forall|b2: int| 0 <= b2 < b ==> (#[trigger] thread_batches@[b2])@.len() == batch_size,
                forall|b2: int, j: int| 0 <= b2 < b && 0 <= j < batch_size
                    ==> #[trigger] generated::<F>(thread_batches@[b2]@[j]),
            decreases batches - b,
        {
            let mut batch: Vec<u64> = Vec::new();
            let mut i: usize = 0;
            while i < batch_size
                invariant
                    i <= batch_size,
                    batch@.len() == i,
                    outs == flatten_input(threads@) + flatten_batches(thread_batches@) + batch@,
                    states.len() == outs.len(),
                    outs.len() > 0 ==> states[0] == first,
                    outs.len() == 0 ==> generator == first,
                    forall|k: int| 0 <= k < outs.len() ==> call_ensures(#[trigger] states[k], (), outs[k]),
                    forall|g: F| call_requires(g, ()),
                    forall|j: int| 0 <= j < i ==> #[trigger] generated::<F>(batch@[j]),
                decreases batch_size - i,
            {
                let ghost before = generator;
                let x = generator();
                assert(call_ensures(before, (), x));
                proof {
                    states = states.push(before);
                    outs = outs.push(x);
                }
                batch.push(x);
                i += 1;
                assert(outs =~= flatten_input(threads@) + flatten_batches(thread_batches@) + batch@);
            }
            let ghost done = thread_batches@;
            thread_batches.push(batch);
            b += 1;
            assert(thread_batches@.drop_last() =~= done);
            assert(outs =~= flatten_input(threads@) + flatten_batches(thread_batches@));
        }
        let ghost done = threads@;
        threads.push(thread_batches);
        t += 1;
        assert(threads@.drop_last() =~= done);
        assert(outs =~= flatten_input(threads@));
    }
    assert(states.len() == flatten_input(threads@).len());
    proof {
        lemma_flatten_input_len(threads@, batches as int, batch_size as int);
    }
    threads
}

} // verus!
