//! Slicing a sequence of items into one chunk per worker.
//!
//! Two policies are offered and kept apart. Block slicing cuts the sequence
//! into `workers` consecutive blocks, as it stands. Interleaved slicing puts
//! the items into a random order first, then cuts them into rows of `workers`
//! items and deals the rows to the workers in turn. Whatever the policy,
//! every item lands in exactly one chunk.

use vstd::prelude::*;
use vstd::arithmetic::div_mod::{
    lemma_div_is_ordered, lemma_div_multiples_vanish, lemma_fundamental_div_mod,
    lemma_fundamental_div_mod_converse, lemma_mod_bound, lemma_small_mod,
};
use vstd::arithmetic::mul::lemma_mul_inequality;
use vstd::slice::{slice_subrange, slice_to_vec};
use crate::host::shuffle_with;

verus! {

/// How the items are cut into chunks.
#[derive(Clone, Copy, Debug, PartialEq, Eq, Structural)]
pub enum SlicePolicy {
    /// Consecutive blocks, one per worker.
    Block,
    /// Rows of `workers` items, dealt to the workers in turn.
    Interleaved,
}

/// The views of a set of chunks, chunk by chunk.
pub open spec fn views_of(chunks: Seq<Vec<usize>>) -> Seq<Seq<usize>> {
    Seq::new(chunks.len(), |k: int| chunks[k]@)
}

/// Where block `k` starts when `len` items are cut into `workers` blocks:
/// `k * len / workers`, rounded down.
pub open spec fn block_bound(len: nat, workers: nat, k: nat) -> nat {
    ((k * len) / workers) as nat
}

/// Block `k` of `items`: from its own bound up to the next one.
pub open spec fn block_chunk(items: Seq<usize>, workers: nat, k: nat) -> Seq<usize> {
    items.subrange(
        block_bound(items.len(), workers, k) as int,
        block_bound(items.len(), workers, k + 1) as int,
    )
}

/// The blocks of `items`, in order.
pub open spec fn block_chunks_spec(items: Seq<usize>, workers: nat) -> Seq<Seq<usize>> {
    Seq::new(workers, |k: int| block_chunk(items, workers, k as nat))
}

/// The block bounds start at zero, end at `len` and never step back.
pub proof fn lemma_block_bounds(len: nat, workers: nat, k: nat)
    requires
        workers >= 1,
        k < workers,
    ensures
        block_bound(len, workers, 0) == 0,
        block_bound(len, workers, workers) == len,
        block_bound(len, workers, k) <= block_bound(len, workers, k + 1) <= len,
{
    let w = workers as int;
    let n = len as int;
    let lo = k as int;
    let hi = k + 1 as int;
    assert(0 * n == 0);
    lemma_div_multiples_vanish(n, w);
    lemma_mul_inequality(lo, hi, n);
    lemma_mul_inequality(hi, w, n);
    lemma_div_is_ordered(lo * n, hi * n, w);
    lemma_div_is_ordered(hi * n, w * n, w);
}

/// Computes where block `k` starts; `k == workers` gives the end of the last
/// block.
pub fn block_boundary(len: usize, workers: usize, k: usize) -> (bound: usize)
    requires
        workers >= 1,
        k <= workers,
    ensures
        bound == block_bound(len as nat, workers as nat, k as nat),
        bound <= len,
{
    proof {
        lemma_mul_inequality(k as int, workers as int, len as int);
        lemma_div_is_ordered(
            (k as int) * (len as int),
            (workers as int) * (len as int),
            workers as int,
        );
        lemma_div_multiples_vanish(len as int, workers as int);
        assert(k * len <= 0xffff_ffff_ffff_ffff * 0xffff_ffff_ffff_ffff) by (nonlinear_arith)
            requires
                0 <= k <= 0xffff_ffff_ffff_ffff,
                0 <= len <= 0xffff_ffff_ffff_ffff,
        ;
    }
    let product: u128 = (k as u128) * (len as u128);
    (product / (workers as u128)) as usize
}

/// Cuts `items` into `workers` consecutive blocks.
///
/// Block `k` holds the items from `k * len / workers` up to
/// `(k + 1) * len / workers`, so the blocks differ in length by at most one
/// and some are empty when there are more workers than items.
pub fn block_chunks(items: &[usize], workers: usize) -> (chunks: Vec<Vec<usize>>)
    requires
        workers >= 1,
    ensures
        chunks@.len() == workers,
        views_of(chunks@) == block_chunks_spec(items@, workers as nat),
{
    let len = items.len();
    let mut chunks: Vec<Vec<usize>> = Vec::new();
    let mut start: usize = block_boundary(len, workers, 0);
    for k in 0..workers
        invariant
            workers >= 1,
            len == items@.len(),
            start == block_bound(len as nat, workers as nat, k as nat),
            chunks@.len() == k,
            forall|j: int|
                0 <= j < k ==> chunks@[j]@ == block_chunk(items@, workers as nat, j as nat),
    {
        proof {
            lemma_block_bounds(len as nat, workers as nat, k as nat);
        }
        let end = block_boundary(len, workers, k + 1);
        let chunk = slice_to_vec(slice_subrange(items, start, end));
        chunks.push(chunk);
        start = end;
    }
    assert(views_of(chunks@) =~= block_chunks_spec(items@, workers as nat));
    chunks
}

/// The number of rows when `len` items are cut into rows of `width` items:
/// `len / width`, rounded up.
pub open spec fn row_count(len: nat, width: nat) -> nat {
    if len % width == 0 {
        len / width
    } else {
        len / width + 1
    }
}

/// Where row `r` ends: `width` items after its start, or at the end of the
/// items if fewer are left.
pub open spec fn row_end(len: nat, width: nat, r: nat) -> nat {
    if (r + 1) * width <= len {
        (r + 1) * width
    } else {
        len
    }
}

/// Row `r` of `items`: the items from `r * width` up to its end.
pub open spec fn row(items: Seq<usize>, width: nat, r: nat) -> Seq<usize> {
    items.subrange((r * width) as int, row_end(items.len(), width, r) as int)
}

/// The rows of `items`, in order. Every row but the last holds `width`
/// items; the last holds what is left, at least one item.
pub open spec fn rows_spec(items: Seq<usize>, width: nat) -> Seq<Seq<usize>> {
    Seq::new(row_count(items.len(), width), |r: int| row(items, width, r as nat))
}

/// What worker `k` holds once the first `upto` rows have been dealt to
/// `workers` workers in turn: the rows `r < upto` with `r % workers == k`,
/// laid end to end in order.
pub open spec fn dealt(rows: Seq<Seq<usize>>, workers: nat, k: nat, upto: nat) -> Seq<usize>
    decreases upto,
{
    if upto == 0 {
        Seq::empty()
    } else {
        let r = (upto - 1) as nat;
        if r % workers == k {
            dealt(rows, workers, k, r) + rows[r as int]
        } else {
            dealt(rows, workers, k, r)
        }
    }
}

/// The chunks after all of `rows` have been dealt: one per worker.
pub open spec fn deal_spec(rows: Seq<Seq<usize>>, workers: nat) -> Seq<Seq<usize>> {
    Seq::new(workers, |k: int| dealt(rows, workers, k as nat, rows.len()))
}

/// The interleaved chunks of `items`: its rows of `workers` items, dealt to
/// the workers in turn.
pub open spec fn interleaved_chunks_spec(items: Seq<usize>, workers: nat) -> Seq<Seq<usize>> {
    deal_spec(rows_spec(items, workers), workers)
}

/// A row count `r` is the right one as soon as `r` rows reach the end of the
/// items and `r - 1` rows do not.
proof fn lemma_row_count_is(len: nat, width: nat, r: nat)
    requires
        width >= 1,
        r * width >= len,
        r == 0 || (r - 1) * width < len,
    ensures
        r == row_count(len, width),
{
    let q = len / width;
    let m = len % width;
    lemma_fundamental_div_mod(len as int, width as int);
    assert(len == width * q + m);
    assert(r == row_count(len, width)) by (nonlinear_arith)
        requires
            width >= 1,
            0 <= m < width,
            len == width * q + m,
            r * width >= len,
            r == 0 || (r - 1) * width < len,
            row_count(len, width) == if m == 0 {
                q
            } else {
                q + 1
            },
    ;
}

/// Cuts `items` into rows of `width` consecutive items; the last row holds
/// the remainder when `width` does not divide the number of items.
pub fn rows(items: &[usize], width: usize) -> (rows: Vec<Vec<usize>>)
    requires
        width >= 1,
    ensures
        rows@.len() == row_count(items@.len(), width as nat),
        views_of(rows@) == rows_spec(items@, width as nat),
{
    let len = items.len();
    let mut rows: Vec<Vec<usize>> = Vec::new();
    let mut start: usize = 0;
    assert(0 * width == 0);
    while start < len
        invariant
            width >= 1,
            len == items@.len(),
            start <= len,
            start == if rows@.len() * width <= len {
                rows@.len() * width
            } else {
                len as int
            },
            rows@.len() == 0 || (rows@.len() - 1) * width < len,
            forall|j: int|
                0 <= j < rows@.len() ==> rows@[j]@ == row(items@, width as nat, j as nat),
        decreases len - start,
    {
        let ghost r = rows@.len();
        assert((r + 1) * width == r * width + width) by (nonlinear_arith);
        let end = if len - start < width {
            len
        } else {
            start + width
        };
        let next = slice_to_vec(slice_subrange(items, start, end));
        rows.push(next);
        start = end;
    }
    proof {
        lemma_row_count_is(len as nat, width as nat, rows@.len());
        assert(views_of(rows@) =~= rows_spec(items@, width as nat));
    }
    rows
}

/// Deals `rows` to `workers` workers in turn: row `r` goes to worker
/// `r % workers`, behind the rows that the worker already holds.
pub fn deal_rows(rows: &Vec<Vec<usize>>, workers: usize) -> (chunks: Vec<Vec<usize>>)
    requires
        workers >= 1,
    ensures
        chunks@.len() == workers,
        views_of(chunks@) == deal_spec(views_of(rows@), workers as nat),
{
    let mut chunks: Vec<Vec<usize>> = Vec::new();
    for k in 0..workers
        invariant
            chunks@.len() == k,
            forall|j: int| 0 <= j < k ==> chunks@[j]@ == Seq::<usize>::empty(),
    {
        chunks.push(Vec::new());
    }
    let ghost all = views_of(rows@);
    let mut turn: usize = 0;
    assert(0nat % (workers as nat) == 0) by {
        lemma_small_mod(0, workers as nat);
    }
    for r in 0..rows.len()
        invariant
            workers >= 1,
            all == views_of(rows@),
            turn == r % workers,
            chunks@.len() == workers,
            forall|j: int|
                0 <= j < workers ==> chunks@[j]@ == dealt(all, workers as nat, j as nat, r as nat),
    {
        proof {
            lemma_next_turn(r as nat, workers as nat);
        }
        let mut copy = slice_to_vec(rows[r].as_slice());
        chunks[turn].append(&mut copy);
        turn = if turn + 1 == workers {
            0
        } else {
            turn + 1
        };
    }
    assert(views_of(chunks@) =~= deal_spec(all, workers as nat));
    chunks
}

/// Whose turn it is after row `r`: the next worker, or the first one again
/// behind the last.
proof fn lemma_next_turn(r: nat, workers: nat)
    requires
        workers >= 1,
    ensures
        r % workers < workers,
        (r + 1) % workers == if r % workers + 1 == workers {
            0
        } else {
            r % workers + 1
        },
{
    let q = (r / workers) as int;
    let m = (r % workers) as int;
    lemma_fundamental_div_mod(r as int, workers as int);
    lemma_mod_bound(r as int, workers as int);
    if m + 1 == workers {
        assert(r + 1 == (q + 1) * workers + 0) by (nonlinear_arith)
            requires
                r == workers * q + m,
                m + 1 == workers,
        ;
        lemma_fundamental_div_mod_converse((r + 1) as int, workers as int, q + 1, 0);
    } else {
        assert(r + 1 == q * workers + (m + 1)) by (nonlinear_arith)
            requires
                r == workers * q + m,
        ;
        lemma_fundamental_div_mod_converse((r + 1) as int, workers as int, q, m + 1);
    }
}

/// Cuts `items` into one chunk per worker by rows: row `r` holds the items
/// from `r * workers` on and goes to worker `r % workers`.
///
/// On items in random order every chunk gets a mix of small and large
/// values. With more workers than rows, the workers behind the last row get
/// an empty chunk.
pub fn interleaved_chunks(items: &[usize], workers: usize) -> (chunks: Vec<Vec<usize>>)
    requires
        workers >= 1,
    ensures
        chunks@.len() == workers,
        views_of(chunks@) == interleaved_chunks_spec(items@, workers as nat),
{
    let rows = rows(items, workers);
    deal_rows(&rows, workers)
}

/// The chunks that a policy makes of `items`.
pub open spec fn partition_spec(items: Seq<usize>, workers: nat, policy: SlicePolicy) -> Seq<
    Seq<usize>,
> {
    match policy {
        SlicePolicy::Block => block_chunks_spec(items, workers),
        SlicePolicy::Interleaved => interleaved_chunks_spec(items, workers),
    }
}

/// Cuts `items` into one chunk per worker under the given policy.
pub fn partition(items: &[usize], workers: usize, policy: SlicePolicy) -> (chunks: Vec<Vec<usize>>)
    requires
        workers >= 1,
    ensures
        chunks@.len() == workers,
        views_of(chunks@) == partition_spec(items@, workers as nat, policy),
{
    match policy {
        SlicePolicy::Block => block_chunks(items, workers),
        SlicePolicy::Interleaved => interleaved_chunks(items, workers),
    }
}

/// Puts `items` into a random order, drawn from the calling thread's own
/// generator. The items stay the same, each as often as before.
pub fn shuffle_items(items: &mut Vec<usize>)
    ensures
        final(items)@.to_multiset() == old(items)@.to_multiset(),
{
    let mut rng = rand::thread_rng();
    shuffle_with(items, &mut rng);
}

/// Hands `items` out to `workers` workers under the given policy.
///
/// Block slicing leaves the items as they stand and cuts them into blocks.
/// Interleaved slicing shuffles them once, in place, and cuts them into
/// interleaved chunks. Either way the chunks are those of the items as they
/// stand afterwards.
pub fn distribute(items: &mut Vec<usize>, workers: usize, policy: SlicePolicy) -> (chunks: Vec<
    Vec<usize>,
>)
    requires
        workers >= 1,
    ensures
        final(items)@.to_multiset() == old(items)@.to_multiset(),
        policy == SlicePolicy::Block ==> final(items)@ == old(items)@,
        chunks@.len() == workers,
        views_of(chunks@) == partition_spec(final(items)@, workers as nat, policy),
{
    match policy {
        SlicePolicy::Block => {},
        SlicePolicy::Interleaved => {
            shuffle_items(items);
        },
    }
    partition(items.as_slice(), workers, policy)
}

} // verus!
