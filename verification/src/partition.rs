//! Sharing a batch of keys out among workers: contiguous chunks of equal size,
//! but for the last, which holds what is left.

use vstd::arithmetic::div_mod::lemma_fundamental_div_mod;
use vstd::prelude::*;
use vstd::slice::slice_subrange;

verus! {

/// The number of keys per chunk when `len` keys are shared out among `workers`
/// workers: `len / workers` rounded up, and at least one. No workers count as one.
pub open spec fn chunk_size(len: nat, workers: nat) -> nat {
    let w: nat = if workers == 0 {
        1
    } else {
        workers
    };
    let q: nat = len / w + if len % w == 0 {
        0nat
    } else {
        1nat
    };
    if q == 0 {
        1
    } else {
        q
    }
}

/// The position of the first key of chunk `i`, which is where chunk `i - 1`
/// ends; the length of the batch from the first chunk on that would be empty.
pub open spec fn chunk_start(len: nat, workers: nat, i: nat) -> nat {
    let at = i * chunk_size(len, workers);
    if at < len {
        at
    } else {
        len
    }
}

/// Chunks begin in order.
pub proof fn lemma_chunk_starts_ordered(len: nat, workers: nat, i: nat)
    ensures
        chunk_start(len, workers, 0) == 0,
        chunk_start(len, workers, i) <= chunk_start(len, workers, i + 1) <= len,
{
    let size = chunk_size(len, workers);
    assert(i * size <= (i + 1) * size) by (nonlinear_arith);
}

/// The number of threads of rayon's current pool, from
/// `rayon::current_num_threads`. Nothing is claimed of the number: it depends on
/// the pool the caller runs in, and callers are verified for every outcome.
#[verifier::external_body]
pub(crate) fn pool_size() -> (workers: usize) {
    rayon::current_num_threads()
}

/// Computes the chunk size for `len` keys and `workers` workers.
pub fn chunk_size_for(len: usize, workers: usize) -> (size: usize)
    ensures
        size == chunk_size(len as nat, workers as nat),
        size >= 1,
        len <= size * (if workers == 0 {
            1
        } else {
            workers as int
        }),
{
    let w: usize = if workers == 0 {
        1
    } else {
        workers
    };
    let q: usize = len / w;
    proof {
        lemma_fundamental_div_mod(len as int, w as int);
        let r = (len % w) as int;
        assert(w * (q + 1) == w * q + w) by (nonlinear_arith);
        if r != 0 {
            assert(q <= w * q) by (nonlinear_arith)
                requires
                    w >= 1,
                    q >= 0,
            ;
        }
        assert(q * w == w * q) by (nonlinear_arith);
        assert((q + 1) * w == w * (q + 1)) by (nonlinear_arith);
    }
    let size: usize = if len % w == 0 {
        q
    } else {
        q + 1
    };
    if size == 0 {
        1
    } else {
        size
    }
}

/// Splits `keys` into contiguous chunks for `workers` workers. The chunks follow
/// one another and cover the batch; each holds `chunk_size` keys, but the last
/// may hold fewer, and none is empty. There are at most as many chunks as
/// workers; an empty batch has no chunk.
pub fn split_chunks<'a>(keys: &'a [u32], workers: usize) -> (chunks: Vec<&'a [u32]>)
    ensures
        keys@.len() <= chunks.len() * chunk_size(keys@.len(), workers as nat) < keys@.len()
            + chunk_size(keys@.len(), workers as nat),
        workers > 0 ==> chunks.len() <= workers,
        forall|i: int|
            0 <= i < chunks.len() ==> (#[trigger] chunks[i])@ == keys@.subrange(
                chunk_start(keys@.len(), workers as nat, i as nat) as int,
                chunk_start(keys@.len(), workers as nat, (i + 1) as nat) as int,
            ),
{
    let len: usize = keys.len();
    let size: usize = chunk_size_for(len, workers);
    let mut chunks: Vec<&'a [u32]> = Vec::new();
    let mut start: usize = 0;
    proof {
        assert(0 * size == 0) by (nonlinear_arith);
    }
    while start < len
        invariant
            len == keys@.len(),
            size == chunk_size(len as nat, workers as nat),
            size >= 1,
            start <= len,
            start == chunk_start(len as nat, workers as nat, chunks.len() as nat),
            start < len ==> start == chunks.len() * size,
            chunks.len() * size < len + size,
            forall|i: int|
                0 <= i < chunks.len() ==> (#[trigger] chunks[i])@ == keys@.subrange(
                    chunk_start(len as nat, workers as nat, i as nat) as int,
                    chunk_start(len as nat, workers as nat, (i + 1) as nat) as int,
                ),
        decreases len - start,
    {
        let end: usize = if len - start > size {
            start + size
        } else {
            len
        };
        let chunk: &'a [u32] = slice_subrange(keys, start, end);
        proof {
            let n = chunks.len() as int;
            assert((n + 1) * size == n * size + size) by (nonlinear_arith);
        }
        chunks.push(chunk);
        start = end;
    }
    proof {
        let n = chunks.len() as int;
        let w: int = if workers == 0 {
            1
        } else {
            workers as int
        };
        if n > w {
            assert((n - 1) * size >= w * size) by (nonlinear_arith)
                requires
                    n - 1 >= w,
                    size >= 1,
            ;
            assert((n - 1) * size == n * size - size) by (nonlinear_arith);
        }
    }
    chunks
}

} // verus!
