//! Every policy hands each item to exactly one worker.

use vstd::prelude::*;
use vstd::arithmetic::div_mod::{
    lemma_div_is_ordered, lemma_fundamental_div_mod, lemma_mod_bound,
};
use vstd::arithmetic::mul::lemma_mul_inequality;
use vstd::seq_lib::{lemma_multiset_commutative, to_multiset_len};
use crate::domain::domain_seq;
use crate::partition::{
    block_bound, block_chunks_spec, deal_spec, dealt, lemma_block_bounds, partition_spec, row,
    row_count, row_end, rows_spec, SlicePolicy,
};
use crate::sequences::{
    lemma_flatten_append_at, lemma_flatten_len_of_nonempty, lemma_flatten_of_empties,
};

verus! {

/// The chunks hold the items of `items`, each as often as `items` does: no
/// item is dropped and none is handed out twice.
pub open spec fn covers(chunks: Seq<Seq<usize>>, items: Seq<usize>) -> bool {
    chunks.flatten().to_multiset() == items.to_multiset()
}

/// The blocks, laid end to end, are the items themselves: nothing is lost,
/// repeated or moved.
pub proof fn lemma_block_chunks_cover(items: Seq<usize>, workers: nat)
    requires
        workers >= 1,
    ensures
        block_chunks_spec(items, workers).flatten() == items,
{
    lemma_block_prefix_cover(items, workers, workers);
    lemma_block_bounds(items.len(), workers, 0);
    assert(block_chunks_spec(items, workers).take(workers as int) =~= block_chunks_spec(
        items,
        workers,
    ));
    assert(items.subrange(0, items.len() as int) =~= items);
}

/// The first `upto` blocks, laid end to end, are the items up to the bound
/// of block `upto`.
proof fn lemma_block_prefix_cover(items: Seq<usize>, workers: nat, upto: nat)
    requires
        workers >= 1,
        upto <= workers,
    ensures
        block_chunks_spec(items, workers).take(upto as int).flatten() == items.subrange(
            0,
            block_bound(items.len(), workers, upto) as int,
        ),
    decreases upto,
{
    let blocks = block_chunks_spec(items, workers);
    if upto == 0 {
        lemma_block_bounds(items.len(), workers, 0);
        assert(blocks.take(0).flatten() =~= items.subrange(0, 0));
    } else {
        let k = (upto - 1) as nat;
        lemma_block_prefix_cover(items, workers, k);
        lemma_block_bounds(items.len(), workers, k);
        assert(blocks.take(upto as int) =~= blocks.take(k as int).push(blocks[k as int]));
        blocks.take(k as int).lemma_flatten_push(blocks[k as int]);
        assert(blocks.take(upto as int).flatten() =~= items.subrange(
            0,
            block_bound(items.len(), workers, upto) as int,
        ));
    }
}

/// Every row starts inside the items and ends where the next one starts; the
/// last row ends with the items.
proof fn lemma_row_bounds(len: nat, width: nat, r: nat)
    requires
        width >= 1,
        r < row_count(len, width),
    ensures
        r * width < len,
        r * width < row_end(len, width, r) <= len,
        r + 1 < row_count(len, width) ==> row_end(len, width, r) == (r + 1) * width,
        r + 1 == row_count(len, width) ==> row_end(len, width, r) == len,
{
    let q = len / width;
    let m = len % width;
    lemma_fundamental_div_mod(len as int, width as int);
    lemma_mod_bound(len as int, width as int);
    let count = row_count(len, width);
    assert({
        &&& r * width < len
        &&& (r + 1) * width == r * width + width
        &&& r + 1 < count ==> (r + 1) * width < len
        &&& r + 1 == count ==> (r + 1) * width >= len
    }) by (nonlinear_arith)
        requires
            width >= 1,
            0 <= m < width,
            len == width * q + m,
            r < count,
            count == if m == 0 {
                q
            } else {
                q + 1
            },
    ;
}

/// The first `upto` rows, laid end to end, are the items up to the end of
/// the last of them.
proof fn lemma_rows_prefix_cover(items: Seq<usize>, width: nat, upto: nat)
    requires
        width >= 1,
        upto <= row_count(items.len(), width),
    ensures
        rows_spec(items, width).take(upto as int).flatten() == items.subrange(
            0,
            if upto == 0 {
                0
            } else {
                row_end(items.len(), width, (upto - 1) as nat) as int
            },
        ),
    decreases upto,
{
    let all = rows_spec(items, width);
    if upto == 0 {
        assert(all.take(0).flatten() =~= items.subrange(0, 0));
    } else {
        let r = (upto - 1) as nat;
        lemma_rows_prefix_cover(items, width, r);
        lemma_row_bounds(items.len(), width, r);
        if r > 0 {
            lemma_row_bounds(items.len(), width, (r - 1) as nat);
        }
        assert(0 * width == 0);
        assert(all.take(upto as int) =~= all.take(r as int).push(all[r as int]));
        all.take(r as int).lemma_flatten_push(all[r as int]);
        assert(all[r as int] == row(items, width, r));
        assert(all.take(upto as int).flatten() =~= items.subrange(
            0,
            row_end(items.len(), width, r) as int,
        ));
    }
}

/// The rows, laid end to end, are the items themselves.
pub proof fn lemma_rows_cover(items: Seq<usize>, width: nat)
    requires
        width >= 1,
    ensures
        rows_spec(items, width).flatten() == items,
{
    let all = rows_spec(items, width);
    let count = row_count(items.len(), width);
    lemma_rows_prefix_cover(items, width, count);
    assert(all.take(count as int) =~= all);
    if count == 0 {
        lemma_fundamental_div_mod(items.len() as int, width as int);
        assert(items.len() == 0) by (nonlinear_arith)
            requires
                width >= 1,
                items.len() == width * (items.len() / width) + (items.len() % width),
                items.len() % width == 0,
                items.len() / width == 0,
        ;
    } else {
        lemma_row_bounds(items.len(), width, (count - 1) as nat);
    }
    assert(items.subrange(0, items.len() as int) =~= items);
}

/// Once the first `upto` rows have been dealt, the workers together hold
/// what those rows held.
proof fn lemma_deal_prefix_covers(rows: Seq<Seq<usize>>, workers: nat, upto: nat)
    requires
        workers >= 1,
        upto <= rows.len(),
    ensures
        Seq::new(workers, |k: int| dealt(rows, workers, k as nat, upto)).flatten().to_multiset()
            == rows.take(upto as int).flatten().to_multiset(),
    decreases upto,
{
    let now = Seq::new(workers, |k: int| dealt(rows, workers, k as nat, upto));
    if upto == 0 {
        lemma_flatten_of_empties(now);
        assert(rows.take(0).flatten() =~= Seq::<usize>::empty());
    } else {
        let r = (upto - 1) as nat;
        let before = Seq::new(workers, |k: int| dealt(rows, workers, k as nat, r));
        let turn = (r % workers) as int;
        lemma_mod_bound(r as int, workers as int);
        lemma_deal_prefix_covers(rows, workers, r);
        assert(now =~= before.update(turn, before[turn] + rows[r as int]));
        lemma_flatten_append_at(before, turn, rows[r as int]);
        assert(rows.take(upto as int) =~= rows.take(r as int).push(rows[r as int]));
        rows.take(r as int).lemma_flatten_push(rows[r as int]);
        lemma_multiset_commutative(rows.take(r as int).flatten(), rows[r as int]);
    }
}

/// Dealing rows to workers moves no item in or out: the chunks together hold
/// what the rows held.
pub proof fn lemma_deal_covers(rows: Seq<Seq<usize>>, workers: nat)
    requires
        workers >= 1,
    ensures
        deal_spec(rows, workers).flatten().to_multiset() == rows.flatten().to_multiset(),
{
    lemma_deal_prefix_covers(rows, workers, rows.len());
    assert(rows.take(rows.len() as int) =~= rows);
}

/// Whatever the policy and the number of workers, the chunks hold every item
/// exactly once.
pub proof fn lemma_partition_covers(items: Seq<usize>, workers: nat, policy: SlicePolicy)
    requires
        workers >= 1,
    ensures
        covers(partition_spec(items, workers, policy), items),
{
    match policy {
        SlicePolicy::Block => {
            lemma_block_chunks_cover(items, workers);
        },
        SlicePolicy::Interleaved => {
            lemma_rows_cover(items, workers);
            lemma_deal_covers(rows_spec(items, workers), workers);
        },
    }
}

/// With more workers than items, at least one worker gets an empty chunk.
pub proof fn lemma_spare_workers_get_nothing(items: Seq<usize>, workers: nat, policy: SlicePolicy)
    requires
        workers > items.len(),
    ensures
        exists|k: int|
            0 <= k < workers && (#[trigger] partition_spec(items, workers, policy)[k]).len() == 0,
{
    let sliced = partition_spec(items, workers, policy);
    assert(sliced.len() == workers);
    if forall|k: int| 0 <= k < workers ==> (#[trigger] sliced[k]).len() >= 1 {
        lemma_flatten_len_of_nonempty(sliced);
        lemma_partition_covers(items, workers, policy);
        to_multiset_len(sliced.flatten());
        to_multiset_len(items);
        assert(false);
    }
}

/// Block bounds rise with the block's number.
proof fn lemma_block_bound_ordered(len: nat, workers: nat, k: nat, j: nat)
    requires
        workers >= 1,
        k <= j,
    ensures
        block_bound(len, workers, k) <= block_bound(len, workers, j),
{
    lemma_mul_inequality(k as int, j as int, len as int);
    lemma_div_is_ordered((k as int) * (len as int), (j as int) * (len as int), workers as int);
}

/// Under block slicing of the ascending domain, later blocks hold larger
/// values: every item of block `k` is below every item of a block `j` behind
/// it.
pub proof fn lemma_block_chunks_ascend(n: nat, workers: nat, k: nat, j: nat, a: int, b: int)
    requires
        n <= usize::MAX,
        k < j < workers,
        0 <= a < block_chunks_spec(domain_seq(n), workers)[k as int].len(),
        0 <= b < block_chunks_spec(domain_seq(n), workers)[j as int].len(),
    ensures
        block_chunks_spec(domain_seq(n), workers)[k as int][a] < block_chunks_spec(
            domain_seq(n),
            workers,
        )[j as int][b],
{
    lemma_block_bounds(n, workers, k);
    lemma_block_bounds(n, workers, j);
    lemma_block_bound_ordered(n, workers, k + 1, j);
}

} // verus!
