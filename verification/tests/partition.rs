use primary_num::{
    block_boundary, block_chunks, build_domain, deal_rows, distribute, interleaved_chunks,
    partition, rows, shuffle_items, SlicePolicy,
};

fn sorted(mut items: Vec<usize>) -> Vec<usize> {
    items.sort();
    items
}

fn flat(chunks: &[Vec<usize>]) -> Vec<usize> {
    let mut all = Vec::new();
    for chunk in chunks {
        all.extend(chunk.iter().copied());
    }
    all
}

#[test]
fn block_boundary_is_k_times_len_over_workers() {
    assert_eq!(block_boundary(10, 3, 0), 0);
    assert_eq!(block_boundary(10, 3, 1), 3);
    assert_eq!(block_boundary(10, 3, 2), 6);
    assert_eq!(block_boundary(10, 3, 3), 10);
    assert_eq!(block_boundary(100_000, 4, 3), 75_000);
    assert_eq!(block_boundary(7, 2, 1), 3);
}

#[test]
fn block_boundary_does_not_overflow() {
    let big = usize::MAX;
    assert_eq!(block_boundary(big, big, big), big);
    assert_eq!(block_boundary(big, big, big - 1), big - 1);
    assert_eq!(block_boundary(big, 2, 1), big / 2);
    assert_eq!(block_boundary(big, 1, 1), big);
}

#[test]
fn block_chunks_of_ten_items_for_three_workers() {
    let items = build_domain(10);
    let chunks = block_chunks(&items, 3);
    assert_eq!(chunks, vec![vec![0, 1, 2], vec![3, 4, 5], vec![6, 7, 8, 9]]);
}

#[test]
fn block_chunks_divide_evenly_when_they_can() {
    let items = build_domain(8);
    let chunks = block_chunks(&items, 4);
    assert_eq!(chunks, vec![vec![0, 1], vec![2, 3], vec![4, 5], vec![6, 7]]);
}

#[test]
fn block_chunks_for_one_worker_are_the_items() {
    let items = build_domain(6);
    assert_eq!(block_chunks(&items, 1), vec![vec![0, 1, 2, 3, 4, 5]]);
}

#[test]
fn block_chunks_with_more_workers_than_items() {
    let items = build_domain(2);
    let chunks = block_chunks(&items, 5);
    let empty: Vec<usize> = Vec::new();
    assert_eq!(chunks, vec![empty.clone(), empty.clone(), vec![0], empty, vec![1]]);
}

#[test]
fn block_chunks_of_nothing_are_all_empty() {
    let chunks = block_chunks(&[], 3);
    assert_eq!(chunks.len(), 3);
    assert!(chunks.iter().all(|chunk| chunk.is_empty()));
}

#[test]
fn block_chunks_keep_values_that_are_not_a_range() {
    let items = [9usize, 9, 4, 7, 1];
    assert_eq!(block_chunks(&items, 2), vec![vec![9, 9], vec![4, 7, 1]]);
}

#[test]
fn rows_hold_width_items_and_the_last_the_rest() {
    let items = build_domain(10);
    assert_eq!(rows(&items, 4), vec![vec![0, 1, 2, 3], vec![4, 5, 6, 7], vec![8, 9]]);
}

#[test]
fn rows_of_an_exact_multiple_are_all_full() {
    let items = build_domain(6);
    assert_eq!(rows(&items, 3), vec![vec![0, 1, 2], vec![3, 4, 5]]);
    assert_eq!(rows(&items, 6), vec![vec![0, 1, 2, 3, 4, 5]]);
}

#[test]
fn rows_wider_than_the_items_are_one_row() {
    let items = build_domain(3);
    assert_eq!(rows(&items, 7), vec![vec![0, 1, 2]]);
    assert_eq!(rows(&items, usize::MAX), vec![vec![0, 1, 2]]);
}

#[test]
fn rows_of_nothing_are_none() {
    assert_eq!(rows(&[], 4), Vec::<Vec<usize>>::new());
}

#[test]
fn rows_are_dealt_in_turn() {
    let all = vec![vec![1], vec![2, 2], vec![3], vec![4, 4], vec![5]];
    assert_eq!(deal_rows(&all, 2), vec![vec![1, 3, 5], vec![2, 2, 4, 4]]);
    assert_eq!(deal_rows(&all, 3), vec![vec![1, 4, 4], vec![2, 2, 5], vec![3]]);
}

#[test]
fn dealing_to_more_workers_than_rows_leaves_some_empty() {
    let all = vec![vec![1, 2], vec![3]];
    let empty: Vec<usize> = Vec::new();
    assert_eq!(deal_rows(&all, 4), vec![vec![1, 2], vec![3], empty.clone(), empty]);
}

#[test]
fn dealing_no_rows_gives_empty_chunks() {
    let chunks = deal_rows(&Vec::new(), 3);
    assert_eq!(chunks.len(), 3);
    assert!(chunks.iter().all(|chunk| chunk.is_empty()));
}

#[test]
fn interleaved_chunks_of_ten_items_for_two_workers() {
    let items = build_domain(10);
    let chunks = interleaved_chunks(&items, 2);
    assert_eq!(chunks, vec![vec![0, 1, 4, 5, 8, 9], vec![2, 3, 6, 7]]);
}

#[test]
fn interleaved_chunks_of_ten_items_for_three_workers() {
    let items = build_domain(10);
    let chunks = interleaved_chunks(&items, 3);
    assert_eq!(chunks, vec![vec![0, 1, 2, 9], vec![3, 4, 5], vec![6, 7, 8]]);
}

#[test]
fn interleaved_chunks_with_more_workers_than_items() {
    let items = build_domain(3);
    let chunks = interleaved_chunks(&items, 5);
    let empty: Vec<usize> = Vec::new();
    assert_eq!(chunks, vec![vec![0, 1, 2], empty.clone(), empty.clone(), empty.clone(), empty]);
}

#[test]
fn interleaved_chunks_of_nothing_are_all_empty() {
    let chunks = interleaved_chunks(&[], 4);
    assert_eq!(chunks.len(), 4);
    assert!(chunks.iter().all(|chunk| chunk.is_empty()));
}

#[test]
fn partition_follows_the_policy() {
    let items = build_domain(10);
    assert_eq!(partition(&items, 3, SlicePolicy::Block), block_chunks(&items, 3));
    assert_eq!(partition(&items, 3, SlicePolicy::Interleaved), interleaved_chunks(&items, 3));
    assert_ne!(
        partition(&items, 3, SlicePolicy::Block),
        partition(&items, 3, SlicePolicy::Interleaved)
    );
}

#[test]
fn every_policy_hands_out_each_item_once() {
    for n in 0..40usize {
        let items = build_domain(n);
        for workers in 1..(n + 6) {
            for policy in [SlicePolicy::Block, SlicePolicy::Interleaved] {
                let chunks = partition(&items, workers, policy);
                assert_eq!(chunks.len(), workers);
                assert_eq!(sorted(flat(&chunks)), items);
            }
        }
    }
}

#[test]
fn block_chunks_laid_end_to_end_are_the_items() {
    let items = [5usize, 3, 8, 8, 1, 0, 7];
    for workers in 1..12 {
        assert_eq!(flat(&block_chunks(&items, workers)), items.to_vec());
    }
}

#[test]
fn rows_laid_end_to_end_are_the_items() {
    let items = [5usize, 3, 8, 8, 1, 0, 7];
    for width in 1..12 {
        assert_eq!(flat(&rows(&items, width)), items.to_vec());
    }
}

#[test]
fn more_workers_than_items_leaves_an_empty_chunk() {
    for n in 0..10usize {
        let items = build_domain(n);
        for policy in [SlicePolicy::Block, SlicePolicy::Interleaved] {
            let chunks = partition(&items, n + 1, policy);
            assert!(chunks.iter().any(|chunk| chunk.is_empty()));
        }
    }
}

#[test]
fn later_blocks_of_the_domain_hold_larger_values() {
    let items = build_domain(100);
    let chunks = block_chunks(&items, 7);
    for k in 0..6 {
        let top = chunks[k].iter().max().copied();
        let bottom = chunks[k + 1].iter().min().copied();
        assert!(top < bottom);
    }
}

#[test]
fn shuffling_keeps_the_items_and_changes_the_order() {
    let ascending = build_domain(1_000);
    let mut items = ascending.clone();
    shuffle_items(&mut items);
    assert_ne!(items, ascending);
    items.sort();
    assert_eq!(items, ascending);
}

#[test]
fn shuffling_few_items_keeps_them() {
    let mut none: Vec<usize> = Vec::new();
    shuffle_items(&mut none);
    assert!(none.is_empty());
    let mut one = vec![42usize];
    shuffle_items(&mut one);
    assert_eq!(one, vec![42]);
    let mut twins = vec![3usize, 3, 3];
    shuffle_items(&mut twins);
    assert_eq!(twins, vec![3, 3, 3]);
}

#[test]
fn distributing_blocks_leaves_the_items_as_they_stand() {
    let mut items = build_domain(10);
    let chunks = distribute(&mut items, 3, SlicePolicy::Block);
    assert_eq!(items, build_domain(10));
    assert_eq!(chunks, vec![vec![0, 1, 2], vec![3, 4, 5], vec![6, 7, 8, 9]]);
}

#[test]
fn distributing_interleaved_shuffles_then_deals_rows() {
    let mut items = build_domain(500);
    let chunks = distribute(&mut items, 7, SlicePolicy::Interleaved);
    assert_ne!(items, build_domain(500));
    assert_eq!(chunks, interleaved_chunks(&items, 7));
    assert_eq!(chunks.len(), 7);
    assert_eq!(sorted(flat(&chunks)), build_domain(500));
}

#[test]
fn distributing_nothing_gives_empty_chunks() {
    for policy in [SlicePolicy::Block, SlicePolicy::Interleaved] {
        let mut items: Vec<usize> = Vec::new();
        let chunks = distribute(&mut items, 4, policy);
        assert!(items.is_empty());
        assert_eq!(chunks.len(), 4);
        assert!(chunks.iter().all(|chunk| chunk.is_empty()));
    }
}
